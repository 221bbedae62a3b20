use vstd::prelude::*;
use vstd::string::StringSliceAdditionalSpecFns;

use crate::text::{
    chars_of, control, decimal, decimal_string, is_control, is_white_space, push_char, string_of,
    utf8_lossy, lossy_utf8, white_space,
};

verus! {

/// What `strip_ansi_escapes::strip` leaves of a byte string.
pub uninterp spec fn ansi_stripped(bytes: Seq<u8>) -> Seq<u8>;

/// `strip_ansi_escapes::strip`: the bytes with terminal escape sequences removed; the
/// contract names the result and states nothing else of it.
#[verifier::external_body]
fn strip_ansi(bytes: &[u8]) -> (r: Vec<u8>)
    ensures
        r@ == ansi_stripped(bytes@),
{
    strip_ansi_escapes::strip(bytes)
}

/// Bidirectional overrides, isolates and zero-width characters.
pub open spec fn is_bidi_or_zero_width(c: char) -> bool {
    let u = c as u32;
    ||| u == 0x061c
    ||| 0x200b <= u && u <= 0x200f
    ||| 0x202a <= u && u <= 0x202e
    ||| 0x2060 <= u && u <= 0x206f
    ||| u == 0xfeff
}

fn bidi_or_zero_width(c: char) -> (r: bool)
    ensures
        r == is_bidi_or_zero_width(c),
{
    let u = c as u32;
    u == 0x061c || (0x200b <= u && u <= 0x200f) || (0x202a <= u && u <= 0x202e) || (0x2060 <= u
        && u <= 0x206f) || u == 0xfeff
}

/// Characters that may be displayed: no control, bidirectional or zero-width ones.
pub open spec fn is_visible(c: char) -> bool {
    !is_control(c) && !is_bidi_or_zero_width(c)
}

/// The visible characters of `s`, in order.
pub open spec fn visible(s: Seq<char>) -> Seq<char>
    decreases s.len(),
{
    if s.len() == 0 {
        s
    } else if is_visible(s.last()) {
        visible(s.drop_last()).push(s.last())
    } else {
        visible(s.drop_last())
    }
}

/// Collapsing the white space of a prefix: the text so far, and whether a separator
/// is owed before the next word.
pub open spec fn collapse_prefix(s: Seq<char>) -> (Seq<char>, bool)
    decreases s.len(),
{
    if s.len() == 0 {
        (Seq::empty(), false)
    } else {
        let (out, pending) = collapse_prefix(s.drop_last());
        let c = s.last();
        if is_white_space(c) {
            (out, out.len() > 0)
        } else if pending {
            (out.push(' ').push(c), false)
        } else {
            (out.push(c), false)
        }
    }
}

/// The words of `s` (the runs between white space), joined by single spaces.
pub open spec fn collapsed(s: Seq<char>) -> Seq<char> {
    collapse_prefix(s).0
}

/// At most the first `limit` characters of `s`.
pub open spec fn truncated(s: Seq<char>, limit: nat) -> Seq<char> {
    if limit < s.len() {
        s.take(limit as int)
    } else {
        s
    }
}

/// The sanitized form of untrusted text: terminal escapes stripped, control, bidi and
/// zero-width characters removed, white space collapsed, cut to `limit` characters.
pub open spec fn sanitized(raw: Seq<char>, limit: nat) -> Seq<char> {
    truncated(
        collapsed(visible(lossy_utf8(ansi_stripped(vstd::utf8::encode_utf8(raw))))),
        limit,
    )
}

/// The label of a pane that has no other name.
pub open spec fn pane_fallback(pane_id: u32) -> Seq<char> {
    "pane "@ + decimal(pane_id as nat)
}

pub open spec fn sanitized_label(raw: Seq<char>, limit: nat, pane_id: u32) -> Seq<char> {
    if sanitized(raw, limit).len() == 0 {
        pane_fallback(pane_id)
    } else {
        sanitized(raw, limit)
    }
}

/// What a collapsed text looks like: visible characters only, single inner spaces,
/// nothing at either end.
pub open spec fn is_clean(s: Seq<char>) -> bool {
    &&& forall|i: int| 0 <= i < s.len() ==> is_visible(#[trigger] s[i])
    &&& forall|i: int| 0 <= i < s.len() && is_white_space(#[trigger] s[i]) ==> s[i] == ' '
    &&& s.len() > 0 ==> !is_white_space(s[0]) && !is_white_space(s.last())
    &&& forall|i: int|
        0 <= i < s.len() - 1 && is_white_space(#[trigger] s[i]) ==> !is_white_space(s[i + 1])
}

proof fn lemma_visible_chars(s: Seq<char>)
    ensures
        forall|i: int| 0 <= i < visible(s).len() ==> is_visible(#[trigger] visible(s)[i]),
    decreases s.len(),
{
    if s.len() > 0 {
        lemma_visible_chars(s.drop_last());
        let a = visible(s.drop_last());
        if is_visible(s.last()) {
            assert forall|i: int| 0 <= i < a.push(s.last()).len() implies is_visible(
                #[trigger] a.push(s.last())[i],
            ) by {
                if i < a.len() {
                    assert(a.push(s.last())[i] == a[i]);
                }
            }
        }
    }
}

proof fn lemma_collapse_prefix_clean(s: Seq<char>)
    requires
        forall|i: int| 0 <= i < s.len() ==> is_visible(#[trigger] s[i]),
    ensures
        is_clean(collapse_prefix(s).0),
        collapse_prefix(s).1 ==> collapse_prefix(s).0.len() > 0,
    decreases s.len(),
{
    if s.len() > 0 {
        assert forall|i: int| 0 <= i < s.drop_last().len() implies is_visible(
            #[trigger] s.drop_last()[i],
        ) by {
            assert(s.drop_last()[i] == s[i]);
        }
        lemma_collapse_prefix_clean(s.drop_last());
        let (out, pending) = collapse_prefix(s.drop_last());
        let c = s.last();
        assert(is_visible(s[s.len() - 1]));
        if !is_white_space(c) {
            let r = collapse_prefix(s).0;
            if pending {
                assert(r == out.push(' ').push(c));
                assert forall|i: int|
                    0 <= i < r.len() - 1 && is_white_space(#[trigger] r[i]) implies !is_white_space(
                    r[i + 1],
                ) by {
                    if i < out.len() - 1 {
                        assert(r[i] == out[i] && r[i + 1] == out[i + 1]);
                    } else if i == out.len() - 1 {
                        assert(r[i + 1] == ' ');
                        assert(r[i] == out.last());
                    }
                }
                assert(is_white_space(' '));
                assert forall|i: int| 0 <= i < r.len() implies is_visible(#[trigger] r[i]) by {
                    if i < out.len() {
                        assert(r[i] == out[i]);
                    }
                }
            } else {
                assert(r == out.push(c));
                assert forall|i: int|
                    0 <= i < r.len() - 1 && is_white_space(#[trigger] r[i]) implies !is_white_space(
                    r[i + 1],
                ) by {
                    if i < out.len() - 1 {
                        assert(r[i] == out[i] && r[i + 1] == out[i + 1]);
                    } else {
                        assert(r[i] == out.last());
                    }
                }
                assert forall|i: int| 0 <= i < r.len() implies is_visible(#[trigger] r[i]) by {
                    if i < out.len() {
                        assert(r[i] == out[i]);
                    }
                }
            }
        }
    }
}

/// Sanitized text never carries a control, bidirectional or zero-width character, never
/// two white space characters in a row, no white space but plain spaces, and no
/// leading white space; it is never longer than the limit.
pub proof fn lemma_sanitized_is_displayable(raw: Seq<char>, limit: nat)
    ensures
        ({
            let s = sanitized(raw, limit);
            &&& s.len() <= limit
            &&& forall|i: int| 0 <= i < s.len() ==> is_visible(#[trigger] s[i])
            &&& forall|i: int| 0 <= i < s.len() && is_white_space(#[trigger] s[i]) ==> s[i] == ' '
            &&& s.len() > 0 ==> !is_white_space(s[0])
            &&& forall|i: int|
                0 <= i < s.len() - 1 && is_white_space(#[trigger] s[i]) ==> !is_white_space(
                    s[i + 1],
                )
        }),
{
    let v = visible(lossy_utf8(ansi_stripped(vstd::utf8::encode_utf8(raw))));
    lemma_visible_chars(lossy_utf8(ansi_stripped(vstd::utf8::encode_utf8(raw))));
    lemma_collapse_prefix_clean(v);
    let c = collapsed(v);
    let s = sanitized(raw, limit);
    if limit < c.len() {
        assert forall|i: int| 0 <= i < s.len() implies s[i] == c[i] by {}
    }
}

/// Text fit to be shown: no control, bidirectional or zero-width character.
pub open spec fn displayable(s: Seq<char>) -> bool {
    forall|i: int| 0 <= i < s.len() ==> is_visible(#[trigger] s[i])
}

/// Sanitized text is fit to be shown.
pub broadcast proof fn lemma_sanitized_displayable(raw: Seq<char>, limit: nat)
    ensures
        #[trigger] displayable(sanitized(raw, limit)),
{
    lemma_sanitized_is_displayable(raw, limit);
}

/// A decimal number is fit to be shown.
pub broadcast proof fn lemma_decimal_displayable(n: nat)
    ensures
        #[trigger] displayable(decimal(n)),
    decreases n,
{
    if n >= 10 {
        lemma_decimal_displayable(n / 10);
        let d = decimal(n / 10);
        let s = decimal(n);
        assert(s == d.push(crate::text::digit_char(n % 10)));
        assert forall|i: int| 0 <= i < s.len() implies is_visible(#[trigger] s[i]) by {
            if i < d.len() {
                assert(s[i] == d[i]);
            }
        }
    }
}

/// A pane's fallback name is fit to be shown.
pub broadcast proof fn lemma_fallback_displayable(pane_id: u32)
    ensures
        #[trigger] displayable(pane_fallback(pane_id)),
{
    reveal_strlit("pane ");
    lemma_decimal_displayable(pane_id as nat);
    let d = decimal(pane_id as nat);
    let s = pane_fallback(pane_id);
    assert forall|i: int| 0 <= i < s.len() implies is_visible(#[trigger] s[i]) by {
        if i >= 5 {
            assert(s[i] == d[i - 5]);
        }
    }
}

/// A sanitized label is fit to be shown.
pub broadcast proof fn lemma_label_displayable(raw: Seq<char>, limit: nat, pane_id: u32)
    ensures
        #[trigger] displayable(sanitized_label(raw, limit, pane_id)),
{
    lemma_sanitized_displayable(raw, limit);
    lemma_fallback_displayable(pane_id);
}

/// The characters that the sanitizer keeps, with white space collapsed.
fn collapse_visible(text: &[char]) -> (out: Vec<char>)
    ensures
        out@ == collapsed(visible(text@)),
{
    let n = text.len();
    let mut kept: Vec<char> = Vec::new();
    for i in 0..n
        invariant
            n == text@.len(),
            kept@ == visible(text@.take(i as int)),
    {
        let c = text[i];
        assert(text@.take(i + 1).drop_last() == text@.take(i as int));
        if !control(c) && !bidi_or_zero_width(c) {
            kept.push(c);
        }
    }
    assert(text@.take(n as int) == text@);
    let m = kept.len();
    let mut out: Vec<char> = Vec::new();
    let mut pending = false;
    for i in 0..m
        invariant
            m == kept@.len(),
            (out@, pending) == collapse_prefix(kept@.take(i as int)),
    {
        let c = kept[i];
        assert(kept@.take(i + 1).drop_last() == kept@.take(i as int));
        if white_space(c) {
            pending = out.len() > 0;
        } else {
            if pending {
                out.push(' ');
            }
            out.push(c);
            pending = false;
        }
    }
    assert(kept@.take(m as int) == kept@);
    out
}

pub fn sanitize_metadata(raw: &str, limit: usize) -> (r: String)
    ensures
        r@ == sanitized(raw@, limit as nat),
{
    let stripped = strip_ansi(raw.as_bytes());
    let text = utf8_lossy(stripped.as_slice());
    clean_text(text.as_str(), limit)
}

/// What the sanitizer makes of text once terminal escapes are gone: its visible
/// characters, white space runs collapsed to single spaces and trimmed, cut to `limit`
/// characters.
pub fn clean_text(text: &str, limit: usize) -> (r: String)
    ensures
        r@ == truncated(collapsed(visible(text@)), limit as nat),
{
    let chars = chars_of(text);
    let collapsed = collapse_visible(chars.as_slice());
    let mut out: Vec<char> = Vec::new();
    let n = if limit < collapsed.len() {
        limit
    } else {
        collapsed.len()
    };
    for i in 0..n
        invariant
            n <= collapsed@.len(),
            out@ == collapsed@.take(i as int),
    {
        out.push(collapsed[i]);
        assert(collapsed@.take(i + 1) == collapsed@.take(i as int).push(collapsed@[i as int]));
    }
    assert(n == collapsed@.len() ==> collapsed@.take(n as int) == collapsed@);
    string_of(out.as_slice())
}

/// `"pane <id>"`.
pub fn pane_fallback_label(pane_id: u32) -> (r: String)
    ensures
        r@ == pane_fallback(pane_id),
{
    let mut s = String::new();
    s.append("pane ");
    let id = decimal_string(pane_id as u64);
    s.append(id.as_str());
    s
}

pub fn sanitize_label(raw: &str, limit: usize, pane_id: u32) -> (r: String)
    ensures
        r@ == sanitized_label(raw@, limit as nat, pane_id),
        r@.len() > 0,
{
    let cleaned = sanitize_metadata(raw, limit);
    if cleaned.as_str().is_empty() {
        proof {
            reveal_strlit("pane ");
        }
        pane_fallback_label(pane_id)
    } else {
        cleaned
    }
}

/// The replacement of one character in notification markup.
pub open spec fn markup_escape_char(c: char) -> Seq<char> {
    if c == '&' {
        "&amp;"@
    } else if c == '<' {
        "&lt;"@
    } else if c == '>' {
        "&gt;"@
    } else {
        seq![c]
    }
}

/// `s` with `&`, `<` and `>` spelled as entities.
pub open spec fn markup_escaped(s: Seq<char>) -> Seq<char>
    decreases s.len(),
{
    if s.len() == 0 {
        s
    } else {
        markup_escaped(s.drop_last()) + markup_escape_char(s.last())
    }
}

pub fn escape_notify_markup(raw: &str) -> (r: String)
    ensures
        r@ == markup_escaped(raw@),
{
    let chars = chars_of(raw);
    let n = chars.len();
    let mut out = String::new();
    for i in 0..n
        invariant
            n == chars@.len(),
            chars@ == raw@,
            out@ == markup_escaped(chars@.take(i as int)),
    {
        let c = chars[i];
        assert(chars@.take(i + 1).drop_last() == chars@.take(i as int));
        if c == '&' {
            out.append("&amp;");
        } else if c == '<' {
            out.append("&lt;");
        } else if c == '>' {
            out.append("&gt;");
        } else {
            push_char(&mut out, c);
            assert(out@ == markup_escaped(chars@.take(i as int)) + seq![c]);
        }
    }
    assert(chars@.take(n as int) == chars@);
    out
}

/// Escaped markup holds no angle bracket: the text cannot open or close a tag.
pub proof fn lemma_escaped_markup_has_no_tags(s: Seq<char>)
    ensures
        !markup_escaped(s).contains('<'),
        !markup_escaped(s).contains('>'),
    decreases s.len(),
{
    reveal_strlit("&amp;");
    reveal_strlit("&lt;");
    reveal_strlit("&gt;");
    if s.len() > 0 {
        lemma_escaped_markup_has_no_tags(s.drop_last());
        let a = markup_escaped(s.drop_last());
        let b = markup_escape_char(s.last());
        assert(markup_escaped(s) == a + b);
        assert forall|i: int| 0 <= i < (a + b).len() implies (a + b)[i] != '<' && (a + b)[i]
            != '>' by {
            if i < a.len() {
                assert((a + b)[i] == a[i]);
                assert(a.contains(a[i]));
            } else {
                assert((a + b)[i] == b[i - a.len()]);
            }
        }
    }
}

/// Markup read back: `&amp;`, `&lt;` and `&gt;` as the characters they stand for.
pub open spec fn markup_unescaped(s: Seq<char>) -> Seq<char>
    decreases s.len(),
{
    let n = s.len() as int;
    if n == 0 {
        s
    } else if n >= 5 && s.subrange(n - 5, n) == "&amp;"@ {
        markup_unescaped(s.take(n - 5)).push('&')
    } else if n >= 4 && s.subrange(n - 4, n) == "&lt;"@ {
        markup_unescaped(s.take(n - 4)).push('<')
    } else if n >= 4 && s.subrange(n - 4, n) == "&gt;"@ {
        markup_unescaped(s.take(n - 4)).push('>')
    } else {
        markup_unescaped(s.drop_last()).push(s.last())
    }
}

/// Every `&` starts a whole entity.
pub open spec fn ampersands_start_entities(s: Seq<char>) -> bool {
    forall|i: int|
        0 <= i < s.len() && #[trigger] s[i] == '&' ==> (i + 5 <= s.len() && s.subrange(i, i + 5)
            == "&amp;"@) || (i + 4 <= s.len() && (s.subrange(i, i + 4) == "&lt;"@ || s.subrange(
            i,
            i + 4,
        ) == "&gt;"@))
}

proof fn lemma_escaped_entities(s: Seq<char>)
    ensures
        ampersands_start_entities(markup_escaped(s)),
    decreases s.len(),
{
    reveal_strlit("&amp;");
    reveal_strlit("&lt;");
    reveal_strlit("&gt;");
    if s.len() > 0 {
        lemma_escaped_entities(s.drop_last());
        let a = markup_escaped(s.drop_last());
        let b = markup_escape_char(s.last());
        let t = a + b;
        assert(markup_escaped(s) == t);
        assert forall|i: int| 0 <= i < t.len() && #[trigger] t[i] == '&' implies (i + 5 <= t.len()
            && t.subrange(i, i + 5) == "&amp;"@) || (i + 4 <= t.len() && (t.subrange(i, i + 4)
            == "&lt;"@ || t.subrange(i, i + 4) == "&gt;"@)) by {
            if i < a.len() {
                assert(t[i] == a[i]);
                if i + 5 <= a.len() && a.subrange(i, i + 5) == "&amp;"@ {
                    assert(t.subrange(i, i + 5) =~= a.subrange(i, i + 5));
                } else {
                    assert(t.subrange(i, i + 4) =~= a.subrange(i, i + 4));
                }
            } else {
                assert(t[i] == b[i - a.len()]);
                assert(i == a.len());
                assert(t.subrange(i, t.len() as int) =~= b);
                if b.len() == 5 {
                    assert(t.subrange(i, i + 5) =~= b);
                } else {
                    assert(t.subrange(i, i + 4) =~= b);
                }
            }
        }
    }
}

/// Escaping notification markup loses nothing: reading the entities back gives the
/// text as it was, and every `&` of the escaped text starts an entity.
pub proof fn lemma_markup_round_trip(s: Seq<char>)
    ensures
        markup_unescaped(markup_escaped(s)) == s,
        ampersands_start_entities(markup_escaped(s)),
    decreases s.len(),
{
    reveal_strlit("&amp;");
    reveal_strlit("&lt;");
    reveal_strlit("&gt;");
    lemma_escaped_entities(s);
    if s.len() > 0 {
        let d = s.drop_last();
        let c = s.last();
        lemma_markup_round_trip(d);
        lemma_escaped_entities(d);
        let a = markup_escaped(d);
        let b = markup_escape_char(c);
        let t = a + b;
        let n = t.len() as int;
        assert(markup_escaped(s) == t);
        assert(s =~= d.push(c));
        if c == '&' {
            assert(t.subrange(n - 5, n) =~= b);
            assert(t.take(n - 5) =~= a);
        } else if c == '<' {
            if n >= 5 {
                assert(t.subrange(n - 5, n)[1] == '&');
                assert("&amp;"@[1] == 'a');
            }
            assert(t.subrange(n - 4, n) =~= b);
            assert(t.take(n - 4) =~= a);
        } else if c == '>' {
            if n >= 5 {
                assert(t.subrange(n - 5, n)[1] == '&');
                assert("&amp;"@[1] == 'a');
            }
            assert(t.subrange(n - 4, n) =~= b);
            assert(t.subrange(n - 4, n)[1] == 'g');
            assert("&lt;"@[1] == 'l');
            assert(t.take(n - 4) =~= a);
        } else {
            assert(t == a.push(c));
            let m = a.len() as int;
            if n >= 5 && t.subrange(n - 5, n) == "&amp;"@ {
                assert(t.subrange(n - 5, n)[0] == t[n - 5]);
                assert(a[m - 4] == '&');
                assert(a.subrange(m - 4, m)[1] == t.subrange(n - 5, n)[1]);
                assert(false);
            }
            if n >= 4 && (t.subrange(n - 4, n) == "&lt;"@ || t.subrange(n - 4, n) == "&gt;"@) {
                assert(t.subrange(n - 4, n)[0] == t[n - 4]);
                assert(a[m - 3] == '&');
                assert(false);
            }
            assert(t.drop_last() =~= a);
        }
    }
}

/// The display name of a pane: its working directory's name, else its title, else
/// `pane <id>`, whichever first survives sanitizing.
pub open spec fn display_name(cwd: Option<Seq<char>>, title: Option<Seq<char>>, pane_id: u32) -> Seq<
    char,
> {
    if cwd is Some && sanitized(cwd->0, 60).len() > 0 {
        sanitized(cwd->0, 60)
    } else if title is Some && sanitized(title->0, 60).len() > 0 {
        sanitized(title->0, 60)
    } else {
        pane_fallback(pane_id)
    }
}

/// A pane's display name is fit to be shown.
pub broadcast proof fn lemma_display_name_displayable(
    cwd: Option<Seq<char>>,
    title: Option<Seq<char>>,
    pane_id: u32,
)
    ensures
        #[trigger] displayable(display_name(cwd, title, pane_id)),
{
    if cwd is Some {
        lemma_sanitized_displayable(cwd->0, 60);
    }
    if title is Some {
        lemma_sanitized_displayable(title->0, 60);
    }
    lemma_fallback_displayable(pane_id);
}

/// The facts above, for use wherever display text is built.
pub broadcast group group_displayable {
    lemma_sanitized_displayable,
    lemma_fallback_displayable,
    lemma_label_displayable,
    lemma_display_name_displayable,
}

pub fn choose_display(cwd_basename: Option<&str>, pane_title: Option<&str>, pane_id: u32) -> (r:
    String)
    ensures
        r@ == display_name(
            match cwd_basename {
                Some(c) => Some(c@),
                None => None,
            },
            match pane_title {
                Some(t) => Some(t@),
                None => None,
            },
            pane_id,
        ),
        r@.len() > 0,
{
    if let Some(cwd) = cwd_basename {
        let cleaned = sanitize_metadata(cwd, 60);
        if !cleaned.as_str().is_empty() {
            return cleaned;
        }
    }
    if let Some(title) = pane_title {
        let cleaned = sanitize_metadata(title, 60);
        if !cleaned.as_str().is_empty() {
            return cleaned;
        }
    }
    proof {
        reveal_strlit("pane ");
    }
    pane_fallback_label(pane_id)
}

} // verus!
