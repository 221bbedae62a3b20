use vstd::prelude::*;

use crate::model::DiagnosticSource;
use crate::protocol::{diagnostic_view, Diagnostic};
use crate::sanitize::{
    displayable, escape_notify_markup, lemma_decimal_displayable, lemma_escaped_markup_has_no_tags,
    lemma_markup_round_trip, markup_escaped, markup_unescaped, sanitize_metadata, sanitized,
};
use crate::state::AttentionKind;
use crate::text::{
    chars_of, contains_seq, contains_str, decimal, decimal_string, file_name, path_file_name,
    str_eq, trim_chars, trimmed,
};

verus! {

/// The title of every desktop notification.
pub const NOTIFICATION_TITLE: &'static str = "zj-agents";

#[derive(Clone, Copy, Debug, PartialEq, Eq, Structural)]
pub enum HostOs {
    Linux,
    Darwin,
}

// ---------------------------------------------------------------------------
// Diagnostic slots
// ---------------------------------------------------------------------------

/// The position of a source in protocol order.
pub open spec fn source_index(s: DiagnosticSource) -> int {
    match s {
        DiagnosticSource::Inventory => 0,
        DiagnosticSource::Manifest => 1,
        DiagnosticSource::Host => 2,
        DiagnosticSource::Notification => 3,
        DiagnosticSource::Protocol => 4,
        DiagnosticSource::Detection => 5,
    }
}

pub open spec fn source_at(i: int) -> DiagnosticSource {
    if i == 0 {
        DiagnosticSource::Inventory
    } else if i == 1 {
        DiagnosticSource::Manifest
    } else if i == 2 {
        DiagnosticSource::Host
    } else if i == 3 {
        DiagnosticSource::Notification
    } else if i == 4 {
        DiagnosticSource::Protocol
    } else {
        DiagnosticSource::Detection
    }
}

fn slot_of(s: DiagnosticSource) -> (i: usize)
    ensures
        i == source_index(s),
        i < 6,
        source_at(i as int) == s,
{
    match s {
        DiagnosticSource::Inventory => 0,
        DiagnosticSource::Manifest => 1,
        DiagnosticSource::Host => 2,
        DiagnosticSource::Notification => 3,
        DiagnosticSource::Protocol => 4,
        DiagnosticSource::Detection => 5,
    }
}

/// The current message of each diagnostic source; at most one per source.
#[derive(Debug)]
pub struct DiagnosticSlots {
    slots: Vec<Option<String>>,
}

/// The messages of the slots, in protocol order.
pub open spec fn slot_entries(slots: Seq<Option<Seq<char>>>, k: int) -> Seq<
    (DiagnosticSource, Seq<char>),
>
    decreases k,
{
    if k <= 0 {
        Seq::empty()
    } else {
        let prev = slot_entries(slots, k - 1);
        match slots[k - 1] {
            Some(m) => prev.push((source_at(k - 1), m)),
            None => prev,
        }
    }
}

/// The message an entry list gives for `source`, if it lists it.
pub open spec fn entry_message(entries: Seq<(DiagnosticSource, Seq<char>)>, source: DiagnosticSource) -> Option<
    Seq<char>,
> {
    if exists|i: int| 0 <= i < entries.len() && (#[trigger] entries[i]).0 == source {
        Some(entries[choose|i: int| 0 <= i < entries.len() && (#[trigger] entries[i]).0 == source].1)
    } else {
        None
    }
}

proof fn lemma_source_round_trip(s: DiagnosticSource)
    ensures
        0 <= source_index(s) < 6,
        source_at(source_index(s)) == s,
{
}

proof fn lemma_slot_entries_ordered(slots: Seq<Option<Seq<char>>>, k: int)
    requires
        0 <= k <= 6,
        slots.len() == 6,
    ensures
        ({
            let e = slot_entries(slots, k);
            &&& forall|i: int, j: int|
                0 <= i < j < e.len() ==> source_index((#[trigger] e[i]).0) < source_index(
                    (#[trigger] e[j]).0,
                )
            &&& forall|i: int|
                0 <= i < e.len() ==> 0 <= source_index((#[trigger] e[i]).0) < k
                    && slots[source_index(e[i].0)] == Some(e[i].1)
            &&& forall|j: int|
                0 <= j < k && (#[trigger] slots[j]) is Some ==> exists|i: int|
                    0 <= i < e.len() && (#[trigger] e[i]).0 == source_at(j)
        }),
    decreases k,
{
    if k > 0 {
        lemma_slot_entries_ordered(slots, k - 1);
        let prev = slot_entries(slots, k - 1);
        let e = slot_entries(slots, k);
        let s = source_at(k - 1);
        assert(source_index(s) == k - 1);
        assert forall|j: int| 0 <= j < k && (#[trigger] slots[j]) is Some implies exists|i: int|
            0 <= i < e.len() && (#[trigger] e[i]).0 == source_at(j) by {
            if j < k - 1 {
                let i = choose|i: int| 0 <= i < prev.len() && (#[trigger] prev[i]).0 == source_at(j);
                assert(e[i] == prev[i]);
            } else {
                assert(e[prev.len() as int].0 == source_at(j));
            }
        }
        assert forall|i: int| 0 <= i < e.len() implies 0 <= source_index((#[trigger] e[i]).0) < k
            && slots[source_index(e[i].0)] == Some(e[i].1) by {
            if i < prev.len() {
                assert(e[i] == prev[i]);
            }
        }
        assert forall|i: int, j: int| 0 <= i < j < e.len() implies source_index((#[trigger] e[i]).0)
            < source_index((#[trigger] e[j]).0) by {
            if j < prev.len() {
                assert(e[i] == prev[i] && e[j] == prev[j]);
            } else {
                assert(e[i] == prev[i]);
            }
        }
    }
}

/// What the diagnostics show: each source at most once, in protocol order, with the
/// message its slot holds, and no entry for an empty slot.
pub proof fn lemma_diagnostics_in_order(slots: Seq<Option<Seq<char>>>, source: DiagnosticSource)
    requires
        slots.len() == 6,
    ensures
        forall|i: int, j: int|
            0 <= i < j < slot_entries(slots, 6).len() ==> source_index(
                (#[trigger] slot_entries(slots, 6)[i]).0,
            ) < source_index((#[trigger] slot_entries(slots, 6)[j]).0),
        entry_message(slot_entries(slots, 6), source) == slots[source_index(source)],
{
    lemma_slot_entries_ordered(slots, 6);
    lemma_source_round_trip(source);
    let e = slot_entries(slots, 6);
    if exists|i: int| 0 <= i < e.len() && (#[trigger] e[i]).0 == source {
        let c = choose|i: int| 0 <= i < e.len() && (#[trigger] e[i]).0 == source;
        assert(slots[source_index(e[c].0)] == Some(e[c].1));
    } else {
        if slots[source_index(source)] is Some {
            assert(exists|i: int| 0 <= i < e.len() && (#[trigger] e[i]).0 == source_at(source_index(source)));
        }
    }
}

/// Setting a diagnostic: afterwards the diagnostics give the sanitized message for its
/// source, or no entry where the message sanitizes to nothing, and every other source's
/// entry as before.
pub proof fn lemma_set_diagnostic(
    slots: Seq<Option<Seq<char>>>,
    source: DiagnosticSource,
    message: Seq<char>,
    other: DiagnosticSource,
)
    requires
        slots.len() == 6,
        other != source,
    ensures
        entry_message(slot_entries(slots.update(source_index(source), slot_message(message)), 6), source)
            == slot_message(message),
        entry_message(slot_entries(slots.update(source_index(source), slot_message(message)), 6), other)
            == entry_message(slot_entries(slots, 6), other),
{
    let n = slots.update(source_index(source), slot_message(message));
    lemma_source_round_trip(source);
    lemma_source_round_trip(other);
    lemma_diagnostics_in_order(n, source);
    lemma_diagnostics_in_order(n, other);
    lemma_diagnostics_in_order(slots, other);
}

impl View for DiagnosticSlots {
    type V = Seq<Option<Seq<char>>>;

    closed spec fn view(&self) -> Seq<Option<Seq<char>>> {
        self.slots@.map_values(|m: Option<String>| opt_view(m))
    }
}

pub open spec fn opt_view(m: Option<String>) -> Option<Seq<char>> {
    match m {
        Some(s) => Some(s@),
        None => None,
    }
}

/// What setting a slot stores: the sanitized message, or nothing if it sanitizes away.
pub open spec fn slot_message(message: Seq<char>) -> Option<Seq<char>> {
    if sanitized(message, 120).len() == 0 {
        None
    } else {
        Some(sanitized(message, 120))
    }
}

impl DiagnosticSlots {
    #[verifier::type_invariant]
    closed spec fn inv(self) -> bool {
        self.slots.len() == 6
    }

    fn take_slots(&mut self) -> (r: Vec<Option<String>>)
        ensures
            r@ == old(self).slots@,
            r@.len() == 6,
    {
        proof {
            use_type_invariant(&*self);
        }
        let mut tmp = DiagnosticSlots::new();
        std::mem::swap(self, &mut tmp);
        proof {
            use_type_invariant(&tmp);
        }
        let DiagnosticSlots { slots } = tmp;
        slots
    }

    pub closed spec fn len_ok(&self) -> bool {
        self@.len() == 6
    }

    pub fn new() -> (r: Self)
        ensures
            r@ == Seq::new(6, |i: int| None::<Seq<char>>),
    {
        let r = DiagnosticSlots { slots: vec![None, None, None, None, None, None] };
        assert(r@ =~= Seq::new(6, |i: int| None::<Seq<char>>));
        r
    }

    pub fn set(&mut self, source: DiagnosticSource, message: &str)
        ensures
            old(self)@.len() == 6,
            final(self)@ == old(self)@.update(source_index(source), slot_message(message@)),
    {
        proof {
            use_type_invariant(&*self);
        }
        let i = slot_of(source);
        let cleaned = sanitize_metadata(message, 120);
        let value = if cleaned.as_str().is_empty() {
            None
        } else {
            Some(cleaned)
        };
        let ghost expected = opt_view(value);
        let mut slots = self.take_slots();
        slots.set(i, value);
        *self = DiagnosticSlots { slots };
        assert(self@ =~= old(self)@.update(source_index(source), expected));
    }

    pub fn clear(&mut self, source: DiagnosticSource)
        ensures
            old(self)@.len() == 6,
            final(self)@ == old(self)@.update(source_index(source), None),
    {
        proof {
            use_type_invariant(&*self);
        }
        let i = slot_of(source);
        let mut slots = self.take_slots();
        slots.set(i, None);
        *self = DiagnosticSlots { slots };
        assert(self@ =~= old(self)@.update(source_index(source), None));
    }

    /// The current diagnostics, one per set slot, in protocol order.
    pub fn snapshot(&self) -> (r: Vec<Diagnostic>)
        ensures
            self@.len() == 6,
            r@.map_values(|d: Diagnostic| diagnostic_view(d)) == slot_entries(self@, 6),
    {
        proof {
            use_type_invariant(self);
        }
        let mut out: Vec<Diagnostic> = Vec::new();
        for i in 0..6
            invariant
                self.slots@.len() == 6,
                out@.map_values(|d: Diagnostic| diagnostic_view(d)) == slot_entries(
                    self@,
                    i as int,
                ),
        {
            assert(self@[i as int] == opt_view(self.slots@[i as int]));
            match &self.slots[i] {
                Some(m) => {
                    let source = if i == 0 {
                        DiagnosticSource::Inventory
                    } else if i == 1 {
                        DiagnosticSource::Manifest
                    } else if i == 2 {
                        DiagnosticSource::Host
                    } else if i == 3 {
                        DiagnosticSource::Notification
                    } else if i == 4 {
                        DiagnosticSource::Protocol
                    } else {
                        DiagnosticSource::Detection
                    };
                    let ghost before = out@;
                    out.push(Diagnostic::new(source, m.as_str()));
                    assert(out@.map_values(|d: Diagnostic| diagnostic_view(d)) =~= before.map_values(
                        |d: Diagnostic| diagnostic_view(d),
                    ).push((source, m@)));
                },
                None => {},
            }
        }
        out
    }
}

impl Default for DiagnosticSlots {
    fn default() -> (r: Self)
        ensures
            r@ == Seq::new(6, |i: int| None::<Seq<char>>),
    {
        DiagnosticSlots::new()
    }
}

impl Clone for DiagnosticSlots {
    fn clone(&self) -> (r: Self)
        ensures
            r@ == self@,
    {
        proof {
            use_type_invariant(self);
        }
        let mut slots: Vec<Option<String>> = Vec::new();
        for i in 0..6
            invariant
                self.slots@.len() == 6,
                slots@.len() == i,
                forall|j: int| 0 <= j < i ==> opt_view(#[trigger] slots@[j]) == opt_view(
                    self.slots@[j],
                ),
        {
            let v = match &self.slots[i] {
                Some(m) => Some(m.clone()),
                None => None,
            };
            slots.push(v);
        }
        let r = DiagnosticSlots { slots };
        assert(r@ =~= self@);
        r
    }
}

// ---------------------------------------------------------------------------
// Notification command templates
// ---------------------------------------------------------------------------

pub open spec fn title_placeholder() -> Seq<char> {
    "{title}"@
}

pub open spec fn body_placeholder() -> Seq<char> {
    "{body}"@
}

/// The executable name that a command's first element stands for.
pub open spec fn basename(path: Seq<char>) -> Seq<char> {
    match path_file_name(path) {
        Some(n) => n,
        None => path,
    }
}

pub open spec fn is_shell(name: Seq<char>) -> bool {
    name == "sh"@ || name == "bash"@ || name == "dash"@ || name == "zsh"@ || name == "fish"@
}

/// How many elements of `a` equal `x`.
pub open spec fn count_of(a: Seq<Seq<char>>, x: Seq<char>) -> nat
    decreases a.len(),
{
    if a.len() == 0 {
        0
    } else {
        count_of(a.drop_last(), x) + if a.last() == x {
            1nat
        } else {
            0nat
        }
    }
}

/// The first position of `x` in `a`, or `a.len()`.
pub open spec fn first_index(a: Seq<Seq<char>>, x: Seq<char>) -> int
    decreases a.len(),
{
    if a.len() == 0 {
        0
    } else if a[0] == x {
        0
    } else {
        1 + first_index(a.drop_first(), x)
    }
}

/// An element that mentions a placeholder without being exactly that placeholder.
pub open spec fn embeds_placeholder(p: Seq<char>) -> bool {
    (contains_seq(p, title_placeholder()) && p != title_placeholder()) || (contains_seq(
        p,
        body_placeholder(),
    ) && p != body_placeholder())
}

/// Why a notification command is refused, or `None` for an acceptable one: it must
/// not run a shell, must hold each placeholder exactly once as a whole element, and
/// must end option parsing with `--` before the first placeholder.
pub open spec fn template_error(a: Seq<Seq<char>>) -> Option<NotifyTemplateError> {
    if a.len() == 0 {
        Some(NotifyTemplateError::Empty)
    } else if is_shell(basename(a[0])) {
        Some(NotifyTemplateError::ShellExecutable)
    } else if count_of(a, title_placeholder()) == 0 || count_of(a, body_placeholder()) == 0 {
        Some(NotifyTemplateError::MissingPlaceholder)
    } else if count_of(a, title_placeholder()) > 1 || count_of(a, body_placeholder()) > 1 {
        Some(NotifyTemplateError::RepeatedPlaceholder)
    } else if exists|i: int| 0 <= i < a.len() && embeds_placeholder(#[trigger] a[i]) {
        Some(NotifyTemplateError::PlaceholderNotWholeElement)
    } else if !(exists|i: int|
        0 <= i < first_index(a, title_placeholder()) && i < first_index(a, body_placeholder())
            && #[trigger] a[i] == "--"@) {
        Some(NotifyTemplateError::MissingDoubleDash)
    } else {
        None
    }
}

pub open spec fn strings_view(v: Seq<String>) -> Seq<Seq<char>> {
    v.map_values(|s: String| s@)
}

/// What `serde_json` reads from `json` as an array of strings, if it is one.
pub uninterp spec fn json_strings(json: Seq<char>) -> Option<Seq<Seq<char>>>;

/// `serde_json::from_str::<Vec<String>>`: the strings of a JSON array of strings, or
/// nothing for any other text; the contract names the result.
#[verifier::external_body]
fn json_string_array(json: &str) -> (r: Option<Vec<String>>)
    ensures
        match r {
            Some(v) => json_strings(json@) == Some(strings_view(v@)),
            None => json_strings(json@) is None,
        },
{
    serde_json::from_str::<Vec<String>>(json).ok()
}

/// A validated notification command, with `{title}` and `{body}` placeholders.
#[derive(Debug)]
pub struct NotifyTemplate {
    argv: Vec<String>,
}

#[derive(Clone, Copy, Debug, PartialEq, Eq, Structural)]
pub enum NotifyTemplateError {
    InvalidJson,
    Empty,
    MissingPlaceholder,
    RepeatedPlaceholder,
    PlaceholderNotWholeElement,
    MissingDoubleDash,
    ShellExecutable,
}

/// The element a template element becomes for a given body.
pub open spec fn instantiate_part(part: Seq<char>, body: Seq<char>) -> Seq<char> {
    if part == title_placeholder() {
        "zj-agents"@
    } else if part == body_placeholder() {
        body
    } else {
        part
    }
}

/// The body as handed to the command: escaped for `notify-send`, which reads markup.
pub open spec fn body_for(executable: Seq<char>, body: Seq<char>) -> Seq<char> {
    if path_file_name(executable) == Some("notify-send"@) {
        markup_escaped(body)
    } else {
        body
    }
}

pub open spec fn instantiated(argv: Seq<Seq<char>>, body: Seq<char>) -> Seq<Seq<char>> {
    argv.map_values(|p: Seq<char>| instantiate_part(p, body_for(argv[0], body)))
}

/// Filling a valid notification command keeps its shape: the executable and every
/// element but the two placeholders stay as written, `{title}` becomes the notification
/// title, and `{body}` the body: as it is, or, for `notify-send`, which reads markup,
/// escaped so that it holds no tag and reads back to the body.
pub proof fn lemma_instantiate_fills_placeholders(a: Seq<Seq<char>>, body: Seq<char>)
    requires
        template_error(a) is None,
    ensures
        ({
            let r = instantiated(a, body);
            &&& r.len() == a.len()
            &&& r[0] == a[0]
            &&& forall|i: int| 0 <= i < a.len() && a[i] == title_placeholder() ==> #[trigger] r[i] == "zj-agents"@
            &&& forall|i: int|
                0 <= i < a.len() && a[i] != title_placeholder() && a[i] != body_placeholder() ==> #[trigger] r[i]
                    == a[i]
            &&& forall|i: int|
                0 <= i < a.len() && a[i] == body_placeholder() ==> {
                    &&& path_file_name(a[0]) != Some("notify-send"@) ==> #[trigger] r[i] == body
                    &&& path_file_name(a[0]) == Some("notify-send"@) ==> markup_unescaped(r[i]) == body
                        && !r[i].contains('<') && !r[i].contains('>')
                }
        }),
{
    reveal_strlit("{title}");
    reveal_strlit("{body}");
    lemma_markup_round_trip(body);
    lemma_escaped_markup_has_no_tags(body);
    let t = first_index(a, title_placeholder());
    if a[0] == title_placeholder() {
        assert(t == 0);
        assert(false);
    }
    if a[0] == body_placeholder() {
        assert(first_index(a, body_placeholder()) == 0);
        assert(false);
    }
}

fn count_exact(argv: &[String], x: &str) -> (n: usize)
    ensures
        n == count_of(strings_view(argv@), x@),
{
    let mut n: usize = 0;
    let len = argv.len();
    for i in 0..len
        invariant
            len == argv@.len(),
            n == count_of(strings_view(argv@).take(i as int), x@),
            n <= i,
    {
        let ghost a = strings_view(argv@);
        assert(a.take(i + 1).drop_last() == a.take(i as int));
        if str_eq(argv[i].as_str(), x) {
            n = n + 1;
        }
    }
    assert(strings_view(argv@).take(len as int) == strings_view(argv@));
    n
}

fn position_exact(argv: &[String], x: &str) -> (i: usize)
    ensures
        i == first_index(strings_view(argv@), x@),
        i <= argv@.len(),
{
    let len = argv.len();
    let mut i: usize = 0;
    assert(strings_view(argv@).skip(0) =~= strings_view(argv@));
    while i < len
        invariant
            len == argv@.len(),
            i <= len,
            first_index(strings_view(argv@), x@) == i + first_index(
                strings_view(argv@).skip(i as int),
                x@,
            ),
        decreases len - i,
    {
        let ghost a = strings_view(argv@).skip(i as int);
        assert(a[0] == argv@[i as int]@);
        if str_eq(argv[i].as_str(), x) {
            assert(a[0] == x@);
            return i;
        }
        assert(a.drop_first() =~= strings_view(argv@).skip(i + 1));
        i = i + 1;
    }
    assert(strings_view(argv@).skip(len as int).len() == 0);
    i
}

proof fn lemma_first_index_bound(a: Seq<Seq<char>>, x: Seq<char>)
    ensures
        0 <= first_index(a, x) <= a.len(),
        first_index(a, x) < a.len() ==> a[first_index(a, x)] == x,
        count_of(a, x) > 0 ==> first_index(a, x) < a.len(),
    decreases a.len(),
{
    if a.len() > 0 && a[0] != x {
        lemma_first_index_bound(a.drop_first(), x);
        lemma_count_drop_first(a, x);
    }
}

proof fn lemma_count_drop_first(a: Seq<Seq<char>>, x: Seq<char>)
    requires
        a.len() > 0,
    ensures
        count_of(a, x) == count_of(a.drop_first(), x) + if a[0] == x {
            1nat
        } else {
            0nat
        },
    decreases a.len(),
{
    if a.len() > 1 {
        lemma_count_drop_first(a.drop_last(), x);
        assert(a.drop_last().drop_first() =~= a.drop_first().drop_last());
        assert(a.drop_first().last() == a.last());
        assert(a.drop_last()[0] == a[0]);
        assert(count_of(a.drop_first(), x) == count_of(a.drop_first().drop_last(), x) + if a.last()
            == x {
            1nat
        } else {
            0nat
        });
    } else {
        assert(a.drop_first().len() == 0);
        assert(a.drop_last().len() == 0);
        assert(a.last() == a[0]);
        assert(count_of(a.drop_last(), x) == 0);
        assert(count_of(a.drop_first(), x) == 0);
    }
}

fn is_shell_name(name: &str) -> (r: bool)
    ensures
        r == is_shell(name@),
{
    str_eq(name, "sh") || str_eq(name, "bash") || str_eq(name, "dash") || str_eq(name, "zsh")
        || str_eq(name, "fish")
}

fn validate_template(argv: &[String]) -> (r: Result<(), NotifyTemplateError>)
    ensures
        match r {
            Ok(()) => template_error(strings_view(argv@)) is None,
            Err(e) => template_error(strings_view(argv@)) == Some(e),
        },
{
    let ghost a = strings_view(argv@);
    if argv.len() == 0 {
        return Err(NotifyTemplateError::Empty);
    }
    let shell = match file_name(argv[0].as_str()) {
        Some(n) => is_shell_name(n.as_str()),
        None => is_shell_name(argv[0].as_str()),
    };
    if shell {
        return Err(NotifyTemplateError::ShellExecutable);
    }
    let title_count = count_exact(argv, "{title}");
    let body_count = count_exact(argv, "{body}");
    if title_count == 0 || body_count == 0 {
        return Err(NotifyTemplateError::MissingPlaceholder);
    }
    if title_count > 1 || body_count > 1 {
        return Err(NotifyTemplateError::RepeatedPlaceholder);
    }
    let len = argv.len();
    for i in 0..len
        invariant
            len == argv@.len(),
            a == strings_view(argv@),
            a.len() > 0,
            !is_shell(basename(a[0])),
            count_of(a, title_placeholder()) == 1,
            count_of(a, body_placeholder()) == 1,
            forall|j: int| 0 <= j < i ==> !embeds_placeholder(#[trigger] a[j]),
    {
        let p = argv[i].as_str();
        assert(a[i as int] == argv@[i as int]@);
        if (contains_str(p, "{title}") && !str_eq(p, "{title}")) || (contains_str(p, "{body}")
            && !str_eq(p, "{body}")) {
            assert(embeds_placeholder(a[i as int]));
            return Err(NotifyTemplateError::PlaceholderNotWholeElement);
        }
    }
    assert(a.len() > 0);
    let title_idx = position_exact(argv, "{title}");
    let body_idx = position_exact(argv, "{body}");
    let first = if title_idx < body_idx {
        title_idx
    } else {
        body_idx
    };
    let mut found = false;
    for i in 0..first
        invariant
            first <= len,
            len == argv@.len(),
            a == strings_view(argv@),
            found == (exists|j: int| 0 <= j < i && #[trigger] a[j] == "--"@),
    {
        assert(a[i as int] == argv@[i as int]@);
        if str_eq(argv[i].as_str(), "--") {
            assert(a[i as int] == "--"@);
            found = true;
        }
    }
    if !found {
        return Err(NotifyTemplateError::MissingDoubleDash);
    }
    Ok(())
}

impl NotifyTemplate {
    #[verifier::type_invariant]
    closed spec fn inv(self) -> bool {
        template_error(strings_view(self.argv@)) is None
    }

    /// The validated command.
    pub closed spec fn argv_view(&self) -> Seq<Seq<char>> {
        strings_view(self.argv@)
    }

    /// Reads a command template from a JSON array of strings.
    pub fn parse(json: &str) -> (r: Result<Self, NotifyTemplateError>)
        ensures
            match json_strings(json@) {
                None => r == Err::<Self, NotifyTemplateError>(NotifyTemplateError::InvalidJson),
                Some(a) => match template_error(a) {
                    Some(e) => r == Err::<Self, NotifyTemplateError>(e),
                    None => r matches Ok(t) && t.argv_view() == a,
                },
            },
    {
        match json_string_array(json) {
            None => Err(NotifyTemplateError::InvalidJson),
            Some(argv) => {
                if argv.len() == 0 {
                    return Err(NotifyTemplateError::Empty);
                }
                Self::from_argv(argv)
            },
        }
    }

    pub fn from_argv(argv: Vec<String>) -> (r: Result<Self, NotifyTemplateError>)
        ensures
            match template_error(strings_view(argv@)) {
                Some(e) => r == Err::<Self, NotifyTemplateError>(e),
                None => r matches Ok(t) && t.argv_view() == strings_view(argv@),
            },
    {
        match validate_template(argv.as_slice()) {
            Ok(()) => Ok(NotifyTemplate { argv }),
            Err(e) => Err(e),
        }
    }

    /// The command to run for a notification with the given body.
    pub fn instantiate(&self, body: &str) -> (r: Vec<String>)
        ensures
            strings_view(r@) == instantiated(self.argv_view(), body@),
    {
        proof {
            use_type_invariant(self);
        }
        let ghost a = strings_view(self.argv@);
        let notify_send = match file_name(self.argv[0].as_str()) {
            Some(n) => str_eq(n.as_str(), "notify-send"),
            None => false,
        };
        let body_value = if notify_send {
            escape_notify_markup(body)
        } else {
            body.to_owned()
        };
        let ghost bv = body_for(a[0], body@);
        assert(body_value@ == bv);
        let mut out: Vec<String> = Vec::new();
        let len = self.argv.len();
        for i in 0..len
            invariant
                len == self.argv@.len(),
                a == strings_view(self.argv@),
                body_value@ == bv,
                out@.len() == i,
                forall|j: int| 0 <= j < i ==> #[trigger] out@[j]@ == instantiate_part(a[j], bv),
        {
            let part = self.argv[i].as_str();
            assert(part@ == a[i as int]);
            let v = if str_eq(part, "{title}") {
                NOTIFICATION_TITLE.to_owned()
            } else if str_eq(part, "{body}") {
                body_value.clone()
            } else {
                part.to_owned()
            };
            assert(v@ == instantiate_part(a[i as int], bv));
            out.push(v);
        }
        assert(strings_view(out@) =~= instantiated(a, body@));
        out
    }
}

impl Clone for NotifyTemplate {
    fn clone(&self) -> (r: Self)
        ensures
            r.argv_view() == self.argv_view(),
    {
        proof {
            use_type_invariant(self);
        }
        let argv = clone_strings(&self.argv);
        NotifyTemplate { argv }
    }
}

/// A copy of a list of strings.
pub fn clone_strings(v: &Vec<String>) -> (r: Vec<String>)
    ensures
        strings_view(r@) == strings_view(v@),
{
    let mut r: Vec<String> = Vec::new();
    let n = v.len();
    for i in 0..n
        invariant
            n == v@.len(),
            r@.len() == i,
            forall|j: int| 0 <= j < i ==> #[trigger] r@[j]@ == v@[j]@,
    {
        r.push(v[i].clone());
    }
    assert(strings_view(r@) =~= strings_view(v@));
    r
}

/// The host's own notification command.
pub open spec fn default_argv(host: HostOs) -> Seq<Seq<char>> {
    match host {
        HostOs::Linux => seq!["notify-send"@, "--"@, "{title}"@, "{body}"@],
        HostOs::Darwin => seq![
            "osascript"@,
            "-e"@,
            "on run argv"@,
            "-e"@,
            "display notification (item 2 of argv) with title (item 1 of argv)"@,
            "-e"@,
            "end run"@,
            "--"@,
            "{title}"@,
            "{body}"@,
        ],
    }
}

pub fn default_notify_argv(host: HostOs) -> (r: Vec<String>)
    ensures
        strings_view(r@) == default_argv(host),
{
    let r = match host {
        HostOs::Linux => vec![
            "notify-send".to_owned(),
            "--".to_owned(),
            "{title}".to_owned(),
            "{body}".to_owned(),
        ],
        HostOs::Darwin => vec![
            "osascript".to_owned(),
            "-e".to_owned(),
            "on run argv".to_owned(),
            "-e".to_owned(),
            "display notification (item 2 of argv) with title (item 1 of argv)".to_owned(),
            "-e".to_owned(),
            "end run".to_owned(),
            "--".to_owned(),
            "{title}".to_owned(),
            "{body}".to_owned(),
        ],
    };
    assert(strings_view(r@) =~= default_argv(host));
    r
}

/// The host a `uname -s` output names.
pub open spec fn host_named(stdout: Seq<char>) -> Option<HostOs> {
    if trimmed(stdout) == "Linux"@ {
        Some(HostOs::Linux)
    } else if trimmed(stdout) == "Darwin"@ {
        Some(HostOs::Darwin)
    } else {
        None
    }
}

pub fn parse_host_os(stdout: &str) -> (r: Option<HostOs>)
    ensures
        r == host_named(stdout@),
{
    let chars = chars_of(stdout);
    let t = trim_chars(chars.as_slice());
    let l = chars_of("Linux");
    let d = chars_of("Darwin");
    if chars_eq(&t, &l) {
        Some(HostOs::Linux)
    } else if chars_eq(&t, &d) {
        Some(HostOs::Darwin)
    } else {
        None
    }
}

fn chars_eq(a: &Vec<char>, b: &Vec<char>) -> (r: bool)
    ensures
        r == (a@ == b@),
{
    if a.len() != b.len() {
        return false;
    }
    let n = a.len();
    for i in 0..n
        invariant
            n == a@.len(),
            n == b@.len(),
            forall|j: int| 0 <= j < i ==> a@[j] == b@[j],
    {
        if a[i] != b[i] {
            return false;
        }
    }
    assert(a@ =~= b@);
    true
}

// ---------------------------------------------------------------------------
// Attention batching
// ---------------------------------------------------------------------------

#[derive(Clone, Debug, PartialEq, Eq)]
pub struct PendingAttention {
    pub pane_id: u32,
    pub state: AttentionKind,
    pub generation: u64,
    pub label: String,
}

#[derive(Clone, Debug, PartialEq, Eq)]
pub struct AttentionEvent {
    pub pane_id: u32,
    pub state: AttentionKind,
    pub generation: u64,
    pub label: String,
}

/// A pending notification as plain values.
pub struct PendingView {
    pub pane_id: u32,
    pub state: AttentionKind,
    pub generation: u64,
    pub label: Seq<char>,
}

pub open spec fn pending_view(p: PendingAttention) -> PendingView {
    PendingView { pane_id: p.pane_id, state: p.state, generation: p.generation, label: p.label@ }
}

pub open spec fn event_view(e: AttentionEvent) -> PendingView {
    PendingView { pane_id: e.pane_id, state: e.state, generation: e.generation, label: e.label@ }
}

/// Entries with strictly increasing pane ids.
pub open spec fn strictly_increasing(s: Seq<PendingView>) -> bool {
    forall|i: int, j: int| 0 <= i < j < s.len() ==> s[i].pane_id < s[j].pane_id
}

/// The entries of `s` other than the one for `pane_id`.
pub open spec fn without(s: Seq<PendingView>, pane_id: u32) -> Seq<PendingView> {
    s.filter(|e: PendingView| e.pane_id != pane_id)
}

/// The entries with `e` stored under its pane id, replacing any earlier one.
pub open spec fn upsert(s: Seq<PendingView>, e: PendingView) -> Seq<PendingView> {
    let rest = without(s, e.pane_id);
    let k = rest.filter(|x: PendingView| x.pane_id < e.pane_id).len();
    rest.take(k as int).push(e) + rest.skip(k as int)
}

/// `keep` is a verdict that `f` can give on an entry equal to `e`.
pub open spec fn verdict<F: Fn(&PendingAttention) -> bool>(f: F, e: PendingView, keep: bool) -> bool {
    exists|p: &PendingAttention| pending_view(*p) == e && #[trigger] f.ensures((p,), keep)
}

/// The entries for which `keep` holds, in order, as events.
pub open spec fn kept(s: Seq<PendingView>, keep: Seq<bool>) -> Seq<PendingView>
    decreases s.len(),
{
    if s.len() == 0 || keep.len() != s.len() {
        Seq::empty()
    } else if keep.last() {
        kept(s.drop_last(), keep.drop_last()).push(s.last())
    } else {
        kept(s.drop_last(), keep.drop_last())
    }
}

/// Every pending notification's label is fit to be shown.
pub open spec fn labels_displayable(s: Seq<PendingView>) -> bool {
    forall|i: int| 0 <= i < s.len() ==> displayable((#[trigger] s[i]).label)
}

/// Dropping a pane's notification keeps the labels fit to be shown.
pub broadcast proof fn lemma_without_keeps_labels(s: Seq<PendingView>, pane_id: u32)
    requires
        labels_displayable(s),
    ensures
        #[trigger] labels_displayable(without(s, pane_id)),
{
    let pred = |e: PendingView| e.pane_id != pane_id;
    let w = without(s, pane_id);
    assert forall|i: int| 0 <= i < w.len() implies displayable((#[trigger] w[i]).label) by {
        assert(w.contains(w[i]));
        s.lemma_filter_contains_rev(pred, w[i]);
        let j = choose|j: int| 0 <= j < s.len() && s[j] == w[i];
        assert(displayable(s[j].label));
    }
}

/// Storing a notification with a label fit to be shown keeps the labels fit to be shown.
pub broadcast proof fn lemma_upsert_keeps_labels(s: Seq<PendingView>, e: PendingView)
    requires
        labels_displayable(s),
        displayable(e.label),
    ensures
        #[trigger] labels_displayable(upsert(s, e)),
{
    let rest = without(s, e.pane_id);
    lemma_without_keeps_labels(s, e.pane_id);
    let k = rest.filter(|x: PendingView| x.pane_id < e.pane_id).len();
    rest.filter_lemma(|x: PendingView| x.pane_id < e.pane_id);
    let u = upsert(s, e);
    assert forall|i: int| 0 <= i < u.len() implies displayable((#[trigger] u[i]).label) by {
        if i < k {
            assert(u[i] == rest[i]);
        } else if i > k {
            assert(u[i] == rest[i - 1]);
        }
    }
}

/// The notifications kept out of a batch carry the batch's labels.
pub broadcast proof fn lemma_kept_keeps_labels(s: Seq<PendingView>, keep: Seq<bool>)
    requires
        labels_displayable(s),
    ensures
        #[trigger] labels_displayable(kept(s, keep)),
    decreases s.len(),
{
    if s.len() > 0 && keep.len() == s.len() {
        assert(labels_displayable(s.drop_last())) by {
            assert forall|i: int| 0 <= i < s.drop_last().len() implies displayable(
                (#[trigger] s.drop_last()[i]).label,
            ) by {
                assert(s.drop_last()[i] == s[i]);
            }
        }
        lemma_kept_keeps_labels(s.drop_last(), keep.drop_last());
        let k = kept(s, keep);
        let p = kept(s.drop_last(), keep.drop_last());
        assert forall|i: int| 0 <= i < k.len() implies displayable((#[trigger] k[i]).label) by {
            if i < p.len() {
                assert(k[i] == p[i]);
            } else {
                assert(k[i] == s.last());
                assert(s.last() == s[s.len() - 1]);
            }
        }
    }
}

/// The facts above, for use wherever the queue changes.
pub broadcast group group_labels {
    lemma_without_keeps_labels,
    lemma_upsert_keeps_labels,
    lemma_kept_keeps_labels,
}

/// A notification body is fit to be shown when the labels it names are: it holds one
/// label and a state word, or a count and a state word.
pub proof fn lemma_body_displayable(events: Seq<PendingView>)
    requires
        labels_displayable(events),
    ensures
        displayable(batch_body(events)),
{
    reveal_strlit(" blocked");
    reveal_strlit(" finished");
    reveal_strlit(" agents blocked");
    reveal_strlit(" agents finished");
    reveal_strlit(" agents need attention");
    let b = batch_body(events);
    if events.len() == 1 {
        let l = events[0].label;
        assert(displayable(l));
        let w = match events[0].state {
            AttentionKind::Blocked => " blocked"@,
            AttentionKind::Done => " finished"@,
        };
        assert(b == l + w);
        assert forall|i: int| 0 <= i < b.len() implies crate::sanitize::is_visible(#[trigger] b[i]) by {
            if i >= l.len() {
                assert(b[i] == w[i - l.len()]);
            } else {
                assert(b[i] == l[i]);
            }
        }
    } else if events.len() > 1 {
        let d = decimal(events.len());
        lemma_decimal_displayable(events.len());
        assert(b.take(d.len() as int) =~= d);
        assert forall|i: int| 0 <= i < b.len() implies crate::sanitize::is_visible(#[trigger] b[i]) by {
            if i < d.len() {
                assert(b[i] == d[i]);
            }
        }
    }
}

/// Notifications waiting for the batching window to close, one per pane.
#[derive(Debug)]
pub struct AttentionQueue {
    pending: Vec<PendingAttention>,
    remaining_ms: Option<u64>,
}

/// The attention queue as plain values: the pending entries in pane order, and the
/// time left in the current batching window.
pub struct QueueView {
    pub pending: Seq<PendingView>,
    pub remaining_ms: Option<u64>,
}

impl View for AttentionQueue {
    type V = QueueView;

    closed spec fn view(&self) -> QueueView {
        QueueView {
            pending: self.pending@.map_values(|p: PendingAttention| pending_view(p)),
            remaining_ms: self.remaining_ms,
        }
    }
}

/// The queue is ordered by pane, and a window runs exactly while something is pending.
pub open spec fn queue_wf(q: QueueView) -> bool {
    &&& strictly_increasing(q.pending)
    &&& (q.pending.len() == 0 <==> q.remaining_ms is None)
}

/// An entry for `pane_id` that belongs to another transition than the given one.
pub open spec fn is_stale(e: PendingView, pane_id: u32, generation: u64, state: AttentionKind) -> bool {
    e.pane_id == pane_id && (e.generation != generation || e.state != state)
}

/// The batching window that a first pending notification opens.
pub open spec fn batch_window_ms() -> u64 {
    2000
}

proof fn lemma_filter_push<A>(s: Seq<A>, f: spec_fn(A) -> bool, x: A)
    ensures
        s.push(x).filter(f) == if f(x) {
            s.filter(f).push(x)
        } else {
            s.filter(f)
        },
{
    reveal(Seq::filter);
    assert(s.push(x).drop_last() =~= s);
}

proof fn lemma_filter_all<A>(s: Seq<A>, f: spec_fn(A) -> bool)
    requires
        forall|i: int| 0 <= i < s.len() ==> f(s[i]),
    ensures
        s.filter(f) == s,
    decreases s.len(),
{
    reveal(Seq::filter);
    if s.len() > 0 {
        lemma_filter_all(s.drop_last(), f);
        assert(s.drop_last().push(s.last()) =~= s);
    }
}

proof fn lemma_filter_none<A>(s: Seq<A>, f: spec_fn(A) -> bool)
    requires
        forall|i: int| 0 <= i < s.len() ==> !f(s[i]),
    ensures
        s.filter(f).len() == 0,
    decreases s.len(),
{
    reveal(Seq::filter);
    if s.len() > 0 {
        lemma_filter_none(s.drop_last(), f);
    }
}

proof fn lemma_filter_increasing(s: Seq<PendingView>, f: spec_fn(PendingView) -> bool)
    requires
        strictly_increasing(s),
    ensures
        strictly_increasing(s.filter(f)),
        forall|i: int| 0 <= i < s.filter(f).len() ==> s.contains(#[trigger] s.filter(f)[i]),
    decreases s.len(),
{
    reveal(Seq::filter);
    if s.len() > 0 {
        let t = s.drop_last();
        lemma_filter_increasing(t, f);
        assert forall|i: int| 0 <= i < t.filter(f).len() implies #[trigger] t.filter(f)[i].pane_id
            < s.last().pane_id by {
            assert(t.contains(t.filter(f)[i]));
        }
        assert forall|i: int| 0 <= i < s.filter(f).len() implies s.contains(
            #[trigger] s.filter(f)[i],
        ) by {
            if i < t.filter(f).len() {
                assert(t.contains(t.filter(f)[i]));
                let j = choose|j: int| 0 <= j < t.len() && t[j] == t.filter(f)[i];
                assert(s[j] == t[j]);
            } else {
                assert(s[s.len() - 1] == s.last());
            }
        }
    }
}

proof fn lemma_without_excludes(s: Seq<PendingView>, pane_id: u32)
    ensures
        forall|j: int|
            0 <= j < without(s, pane_id).len() ==> #[trigger] without(s, pane_id)[j].pane_id
                != pane_id,
{
    assert forall|j: int| 0 <= j < without(s, pane_id).len() implies #[trigger] without(
        s,
        pane_id,
    )[j].pane_id != pane_id by {
        s.lemma_filter_pred(|e: PendingView| e.pane_id != pane_id, j);
    }
}

#[verifier::spinoff_prover]
#[verifier::rlimit(40)]
proof fn lemma_insert_sorted(r: Seq<PendingView>, e: PendingView, k: int)
    requires
        strictly_increasing(r),
        0 <= k <= r.len(),
        forall|j: int| 0 <= j < k ==> #[trigger] r[j].pane_id < e.pane_id,
        k < r.len() ==> !(r[k].pane_id < e.pane_id),
        forall|j: int| 0 <= j < r.len() ==> #[trigger] r[j].pane_id != e.pane_id,
    ensures
        r.filter(|x: PendingView| x.pane_id < e.pane_id).len() == k,
        strictly_increasing(r.take(k).push(e) + r.skip(k)),
{
    let f = |x: PendingView| x.pane_id < e.pane_id;
    assert forall|j: int| k <= j < r.len() implies r[j].pane_id > e.pane_id by {
        assert(r[j].pane_id != e.pane_id);
        if j > k {
            assert(r[k].pane_id < r[j].pane_id);
        }
    }
    assert(r =~= r.take(k) + r.skip(k));
    lemma_filter_all(r.take(k), f);
    lemma_filter_none(r.skip(k), f);
    Seq::filter_distributes_over_add(r.take(k), r.skip(k), f);
    let u = r.take(k).push(e) + r.skip(k);
    assert forall|i: int, j: int| 0 <= i < j < u.len() implies u[i].pane_id < u[j].pane_id by {
        if j < k {
            assert(u[i] == r[i] && u[j] == r[j]);
        } else if j == k {
            assert(u[i] == r[i]);
        } else if i < k {
            assert(u[i] == r[i] && u[j] == r[j - 1]);
        } else if i == k {
            assert(u[j] == r[j - 1]);
        } else {
            assert(u[i] == r[i - 1] && u[j] == r[j - 1]);
        }
    }
}

/// The pending notification for pane `p`, if there is one.
pub open spec fn entry_for(s: Seq<PendingView>, p: u32) -> Option<PendingView> {
    if exists|i: int| 0 <= i < s.len() && (#[trigger] s[i]).pane_id == p {
        Some(s[choose|i: int| 0 <= i < s.len() && (#[trigger] s[i]).pane_id == p])
    } else {
        None
    }
}

/// Enqueueing stores the event as its pane's notification, replacing an earlier one,
/// and leaves every other pane's notification as it was. (`enqueue` opens a batching
/// window only on an empty queue, so a later event never extends one.)
pub proof fn lemma_enqueue_replaces(s: Seq<PendingView>, e: PendingView, p: u32)
    requires
        strictly_increasing(s),
    ensures
        entry_for(upsert(s, e), p) == if p == e.pane_id {
            Some(e)
        } else {
            entry_for(s, p)
        },
{
    let pred = |x: PendingView| x.pane_id != e.pane_id;
    let rest = without(s, e.pane_id);
    lemma_filter_increasing(s, pred);
    lemma_without_excludes(s, e.pane_id);
    rest.filter_lemma(|x: PendingView| x.pane_id < e.pane_id);
    let k: int = rest.filter(|x: PendingView| x.pane_id < e.pane_id).len() as int;
    let u = upsert(s, e);
    assert(u == rest.take(k).push(e) + rest.skip(k));
    assert forall|i: int| 0 <= i < u.len() implies #[trigger] u[i] == if i < k {
        rest[i]
    } else if i == k {
        e
    } else {
        rest[i - 1]
    } by {
        if i > k {
            assert(u[i] == rest.skip(k)[i - k - 1]);
        }
    }
    if p == e.pane_id {
        assert(u[k].pane_id == p);
        let c = choose|i: int| 0 <= i < u.len() && (#[trigger] u[i]).pane_id == p;
        if c != k {
            if c < k {
                assert(rest[c].pane_id != e.pane_id);
            } else {
                assert(rest[c - 1].pane_id != e.pane_id);
            }
        }
    } else {
        if exists|i: int| 0 <= i < s.len() && (#[trigger] s[i]).pane_id == p {
            let j = choose|i: int| 0 <= i < s.len() && (#[trigger] s[i]).pane_id == p;
            s.lemma_filter_contains(pred, j);
            let m = choose|m: int| 0 <= m < rest.len() && rest[m] == s[j];
            if m < k {
                assert(u[m].pane_id == p);
            } else {
                assert(u[m + 1].pane_id == p);
            }
        }
        if exists|i: int| 0 <= i < u.len() && (#[trigger] u[i]).pane_id == p {
            let c = choose|i: int| 0 <= i < u.len() && (#[trigger] u[i]).pane_id == p;
            let m = if c < k {
                c
            } else {
                c - 1
            };
            assert(u[c] == rest[m]);
            assert(s.contains(rest[m]));
            let j2 = choose|j: int| 0 <= j < s.len() && s[j] == rest[m];
            assert(s[j2].pane_id == p);
            let j = choose|i: int| 0 <= i < s.len() && (#[trigger] s[i]).pane_id == p;
            if j != j2 {
                if j < j2 {
                    assert(s[j].pane_id < s[j2].pane_id);
                } else {
                    assert(s[j2].pane_id < s[j].pane_id);
                }
            }
        }
    }
}

/// `e` is an entry of `s` whose verdict in `keep` is to keep it.
pub open spec fn kept_from(s: Seq<PendingView>, keep: Seq<bool>, e: PendingView) -> bool {
    exists|j: int| 0 <= j < s.len() && keep[j] && #[trigger] s[j] == e
}

/// The notifications a closing window lets out: the pending entries whose verdict is to
/// keep them, each once, still in ascending pane order, and no others.
pub proof fn lemma_kept_entries(s: Seq<PendingView>, keep: Seq<bool>)
    requires
        strictly_increasing(s),
        keep.len() == s.len(),
    ensures
        strictly_increasing(kept(s, keep)),
        forall|i: int| 0 <= i < kept(s, keep).len() ==> kept_from(s, keep, #[trigger] kept(s, keep)[i]),
        forall|j: int| 0 <= j < s.len() && keep[j] ==> kept(s, keep).contains(#[trigger] s[j]),
    decreases s.len(),
{
    if s.len() > 0 {
        let sd = s.drop_last();
        let kd = keep.drop_last();
        assert forall|a: int, b: int| 0 <= a < b < sd.len() implies sd[a].pane_id < sd[b].pane_id by {
            assert(sd[a] == s[a] && sd[b] == s[b]);
        }
        lemma_kept_entries(sd, kd);
        let p = kept(sd, kd);
        let k = kept(s, keep);
        assert(s.last() == s[s.len() - 1]);
        assert forall|i: int| 0 <= i < k.len() implies kept_from(s, keep, #[trigger] k[i]) by {
            if i < p.len() {
                assert(k[i] == p[i]);
                assert(kept_from(sd, kd, p[i]));
                let j = choose|j: int| 0 <= j < sd.len() && kd[j] && #[trigger] sd[j] == p[i];
                assert(s[j] == sd[j] && keep[j] == kd[j]);
            } else {
                assert(keep.last());
                assert(k[i] == s.last());
                assert(keep[s.len() - 1] && s[s.len() - 1] == k[i]);
            }
        }
        assert forall|j: int| 0 <= j < s.len() && keep[j] implies k.contains(#[trigger] s[j]) by {
            if j < sd.len() {
                assert(sd[j] == s[j] && kd[j] == keep[j]);
                assert(p.contains(sd[j]));
                let m = choose|m: int| 0 <= m < p.len() && p[m] == sd[j];
                assert(k[m] == p[m]);
            } else {
                assert(k[k.len() - 1] == s.last());
            }
        }
        if keep.last() {
            assert forall|a: int, b: int| 0 <= a < b < k.len() implies k[a].pane_id < k[b].pane_id by {
                if b < p.len() {
                    assert(k[a] == p[a] && k[b] == p[b]);
                } else {
                    assert(k[a] == p[a]);
                    assert(kept_from(sd, kd, p[a]));
                    let j = choose|j: int| 0 <= j < sd.len() && kd[j] && #[trigger] sd[j] == p[a];
                    assert(s[j] == sd[j]);
                    assert(s[j].pane_id < s[s.len() - 1].pane_id);
                }
            }
        }
    }
}

impl AttentionQueue {
    #[verifier::type_invariant]
    closed spec fn inv(self) -> bool {
        queue_wf(self@)
    }

    fn take_pending(&mut self) -> (r: Vec<PendingAttention>)
        ensures
            r@.map_values(|p: PendingAttention| pending_view(p)) == old(self)@.pending,
            queue_wf(old(self)@),
            final(self)@.pending.len() == 0,
            final(self)@.remaining_ms is None,
    {
        proof {
            use_type_invariant(&*self);
        }
        let mut tmp = AttentionQueue::new();
        std::mem::swap(self, &mut tmp);
        proof {
            use_type_invariant(&tmp);
        }
        let AttentionQueue { pending, remaining_ms } = tmp;
        pending
    }

    pub fn new() -> (r: Self)
        ensures
            r@.pending.len() == 0,
            r@.remaining_ms is None,
    {
        let r = AttentionQueue { pending: Vec::new(), remaining_ms: None };
        assert(r@.pending =~= Seq::<PendingView>::empty());
        r
    }

    /// Every queue is ordered by pane and runs a window exactly while non-empty.
    pub fn is_well_formed(&self) -> (r: bool)
        ensures
            r,
            queue_wf(self@),
    {
        proof {
            use_type_invariant(self);
        }
        true
    }

    /// Queues a notification, replacing any earlier one for the same pane; the first
    /// entry of a batch opens the batching window.
    pub fn enqueue(&mut self, event: PendingAttention)
        ensures
            final(self)@.pending == upsert(old(self)@.pending, pending_view(event)),
            final(self)@.remaining_ms == if old(self)@.pending.len() == 0 {
                Some(batch_window_ms())
            } else {
                old(self)@.remaining_ms
            },
    {
        proof {
            use_type_invariant(&*self);
        }
        let ghost old_pending = self@.pending;
        let ghost e = pending_view(event);
        let is_first = self.pending.len() == 0;
        let old_remaining = self.remaining_ms;
        let pending = self.take_pending();
        let mut rest = remove_pane(pending, event.pane_id);
        let ghost r = without(old_pending, event.pane_id);
        let n = rest.len();
        let mut k: usize = 0;
        while k < n
            invariant
                n == rest@.len(),
                k <= n,
                e == pending_view(event),
                rest@.map_values(|p: PendingAttention| pending_view(p)) == r,
                forall|j: int| 0 <= j < k ==> #[trigger] r[j].pane_id < e.pane_id,
            ensures
                k <= n,
                forall|j: int| 0 <= j < k ==> #[trigger] r[j].pane_id < e.pane_id,
                k < n ==> !(r[k as int].pane_id < e.pane_id),
            decreases n - k,
        {
            assert(r[k as int] == pending_view(rest@[k as int]));
            if rest[k].pane_id >= event.pane_id {
                break;
            }
            k = k + 1;
        }
        proof {
            assert(k < n ==> r[k as int] == pending_view(rest@[k as int]));
            lemma_without_excludes(old_pending, e.pane_id);
            lemma_filter_increasing(old_pending, |x: PendingView| x.pane_id != e.pane_id);
            lemma_insert_sorted(r, e, k as int);
        }
        let ghost before = rest@;
        rest.insert(k, event);
        proof {
            let u = r.take(k as int).push(e) + r.skip(k as int);
            assert forall|j: int| 0 <= j < u.len() implies #[trigger] pending_view(rest@[j])
                == u[j] by {
                if j < k {
                    assert(rest@[j] == before[j]);
                } else if j > k {
                    assert(rest@[j] == before[j - 1]);
                }
            }
            assert(rest@.map_values(|p: PendingAttention| pending_view(p)) =~= u);
        }
        let remaining = if is_first {
            Some(2000u64)
        } else {
            old_remaining
        };
        *self = AttentionQueue { pending: rest, remaining_ms: remaining };
    }

    /// Focusing a pane drops its pending notification.
    pub fn on_focused(&mut self, pane_id: u32)
        ensures
            final(self)@.pending == without(old(self)@.pending, pane_id),
            final(self)@.remaining_ms == if final(self)@.pending.len() == 0 {
                None
            } else {
                old(self)@.remaining_ms
            },
    {
        proof {
            use_type_invariant(&*self);
        }
        let old_remaining = self.remaining_ms;
        let pending = self.take_pending();
        let rest = remove_pane(pending, pane_id);
        let remaining = if rest.len() == 0 {
            None
        } else {
            old_remaining
        };
        *self = AttentionQueue { pending: rest, remaining_ms: remaining };
    }

    /// Drops the pane's pending notification when it no longer describes the pane's
    /// current transition.
    pub fn invalidate_if_stale(&mut self, pane_id: u32, generation: u64, state: AttentionKind)
        ensures
            final(self)@.pending == if exists|i: int|
                0 <= i < old(self)@.pending.len() && is_stale(
                    #[trigger] old(self)@.pending[i],
                    pane_id,
                    generation,
                    state,
                ) {
                without(old(self)@.pending, pane_id)
            } else {
                old(self)@.pending
            },
            final(self)@.remaining_ms == if final(self)@.pending.len() == 0 {
                None
            } else {
                old(self)@.remaining_ms
            },
    {
        proof {
            use_type_invariant(&*self);
        }
        let ghost s = self@.pending;
        let n = self.pending.len();
        let mut stale = false;
        for i in 0..n
            invariant
                n == self.pending@.len(),
                s == self@.pending,
                stale == (exists|j: int|
                    0 <= j < i && is_stale(#[trigger] s[j], pane_id, generation, state)),
        {
            let e = &self.pending[i];
            assert(s[i as int] == pending_view(*e));
            if e.pane_id == pane_id && (e.generation != generation || e.state != state) {
                stale = true;
            }
        }
        if stale {
            let old_remaining = self.remaining_ms;
            let pending = self.take_pending();
            let rest = remove_pane(pending, pane_id);
            let remaining = if rest.len() == 0 {
                None
            } else {
                old_remaining
            };
            *self = AttentionQueue { pending: rest, remaining_ms: remaining };
        }
    }

    /// Lets `elapsed_ms` pass. When the batching window closes, every pending entry
    /// leaves the queue and those that `still_valid` accepts come back as events.
    pub fn advance<F: Fn(&PendingAttention) -> bool>(&mut self, elapsed_ms: u64, still_valid: F) -> (r:
        Option<Vec<AttentionEvent>>)
        requires
            forall|p: &PendingAttention| #[trigger] still_valid.requires((p,)),
        ensures
            match old(self)@.remaining_ms {
                None => r is None && final(self)@ == old(self)@,
                Some(rem) => if rem > elapsed_ms {
                    r is None && final(self)@.pending == old(self)@.pending
                        && final(self)@.remaining_ms == Some((rem - elapsed_ms) as u64)
                } else {
                    &&& final(self)@.pending.len() == 0
                    &&& final(self)@.remaining_ms is None
                    &&& r matches Some(events) && exists|keep: Seq<bool>|
                        #![trigger kept(old(self)@.pending, keep)]
                        {
                            &&& keep.len() == old(self)@.pending.len()
                            &&& (forall|i: int|
                                0 <= i < keep.len() ==> #[trigger] verdict(
                                    still_valid,
                                    old(self)@.pending[i],
                                    keep[i],
                                ))
                            &&& events@.map_values(|e: AttentionEvent| event_view(e)) == kept(
                                old(self)@.pending,
                                keep,
                            )
                        }
                },
            },
    {
        proof {
            use_type_invariant(&*self);
        }
        let rem = match self.remaining_ms {
            None => {
                return None;
            },
            Some(rem) => rem,
        };
        let left = rem.saturating_sub(elapsed_ms);
        if left > 0 {
            let pending = self.take_pending();
            *self = AttentionQueue { pending, remaining_ms: Some(left) };
            return None;
        }
        let ghost s = self@.pending;
        let pending = self.take_pending();
        let mut emitted: Vec<AttentionEvent> = Vec::new();
        let ghost mut keep: Seq<bool> = Seq::empty();
        let n = pending.len();
        for i in 0..n
            invariant
                n == pending@.len(),
                s == pending@.map_values(|p: PendingAttention| pending_view(p)),
                forall|p: &PendingAttention| #[trigger] still_valid.requires((p,)),
                keep.len() == i,
                forall|j: int| 0 <= j < i ==> #[trigger] verdict(still_valid, s[j], keep[j]),
                emitted@.map_values(|e: AttentionEvent| event_view(e)) == kept(
                    s.take(i as int),
                    keep,
                ),
        {
            let entry = &pending[i];
            let ok = still_valid(entry);
            let ghost old_keep = keep;
            let ghost before = emitted@;
            proof {
                assert(s[i as int] == pending_view(*entry));
                keep = keep.push(ok);
                assert(keep.drop_last() =~= old_keep);
                assert(s.take(i + 1).drop_last() =~= s.take(i as int));
                assert(s.take(i + 1).last() == s[i as int]);
                assert(verdict(still_valid, s[i as int], keep[i as int]));
                assert forall|j: int| 0 <= j < i + 1 implies #[trigger] verdict(
                    still_valid,
                    s[j],
                    keep[j],
                ) by {
                    if j < i {
                        assert(keep[j] == old_keep[j]);
                    }
                }
            }
            if ok {
                emitted.push(
                    AttentionEvent {
                        pane_id: entry.pane_id,
                        state: entry.state,
                        generation: entry.generation,
                        label: entry.label.clone(),
                    },
                );
                proof {
                    assert(emitted@.map_values(|e: AttentionEvent| event_view(e)) =~= before.map_values(
                        |e: AttentionEvent| event_view(e),
                    ).push(s[i as int]));
                }
            }
            proof {
                assert(emitted@.map_values(|e: AttentionEvent| event_view(e)) == kept(
                    s.take(i + 1),
                    keep,
                ));
            }
        }
        assert(s.take(n as int) =~= s);
        assert(emitted@.map_values(|e: AttentionEvent| event_view(e)) == kept(s, keep));
        Some(emitted)
    }

    /// The notification body for a batch of events.
    pub fn format_body(events: &[AttentionEvent]) -> (r: String)
        ensures
            r@ == batch_body(events@.map_values(|e: AttentionEvent| event_view(e))),
    {
        let ghost ev = events@.map_values(|e: AttentionEvent| event_view(e));
        let n = events.len();
        if n == 0 {
            return String::new();
        }
        if n == 1 {
            let mut s = events[0].label.clone();
            match events[0].state {
                AttentionKind::Blocked => s.append(" blocked"),
                AttentionKind::Done => s.append(" finished"),
            }
            return s;
        }
        let mut all_blocked = true;
        let mut all_done = true;
        for i in 0..n
            invariant
                n == events@.len(),
                ev == events@.map_values(|e: AttentionEvent| event_view(e)),
                all_blocked == (forall|j: int|
                    0 <= j < i ==> #[trigger] ev[j].state == AttentionKind::Blocked),
                all_done == (forall|j: int|
                    0 <= j < i ==> #[trigger] ev[j].state == AttentionKind::Done),
        {
            assert(ev[i as int].state == events[i as int].state);
            if events[i].state != AttentionKind::Blocked {
                all_blocked = false;
            }
            if events[i].state != AttentionKind::Done {
                all_done = false;
            }
        }
        let mut s = decimal_string(n as u64);
        if all_blocked {
            s.append(" agents blocked");
        } else if all_done {
            s.append(" agents finished");
        } else {
            s.append(" agents need attention");
        }
        s
    }
}

/// The body of a batched notification.
pub open spec fn batch_body(events: Seq<PendingView>) -> Seq<char> {
    if events.len() == 0 {
        Seq::empty()
    } else if events.len() == 1 {
        events[0].label + match events[0].state {
            AttentionKind::Blocked => " blocked"@,
            AttentionKind::Done => " finished"@,
        }
    } else if forall|i: int| 0 <= i < events.len() ==> #[trigger] events[i].state
        == AttentionKind::Blocked {
        decimal(events.len()) + " agents blocked"@
    } else if forall|i: int| 0 <= i < events.len() ==> #[trigger] events[i].state
        == AttentionKind::Done {
        decimal(events.len()) + " agents finished"@
    } else {
        decimal(events.len()) + " agents need attention"@
    }
}

fn copy_pending(p: &PendingAttention) -> (r: PendingAttention)
    ensures
        pending_view(r) == pending_view(*p),
{
    PendingAttention {
        pane_id: p.pane_id,
        state: p.state,
        generation: p.generation,
        label: p.label.clone(),
    }
}

/// The entries other than the one for `pane_id`, keeping their order.
fn remove_pane(pending: Vec<PendingAttention>, pane_id: u32) -> (r: Vec<PendingAttention>)
    requires
        strictly_increasing(pending@.map_values(|p: PendingAttention| pending_view(p))),
    ensures
        r@.map_values(|p: PendingAttention| pending_view(p)) == without(
            pending@.map_values(|p: PendingAttention| pending_view(p)),
            pane_id,
        ),
        strictly_increasing(r@.map_values(|p: PendingAttention| pending_view(p))),
{
    let ghost s = pending@.map_values(|p: PendingAttention| pending_view(p));
    let mut r: Vec<PendingAttention> = Vec::new();
    let n = pending.len();
    proof {
        lemma_filter_increasing(s, |e: PendingView| e.pane_id != pane_id);
    }
    for i in 0..n
        invariant
            n == pending@.len(),
            s == pending@.map_values(|p: PendingAttention| pending_view(p)),
            r@.map_values(|p: PendingAttention| pending_view(p)) == s.take(i as int).filter(
                |e: PendingView| e.pane_id != pane_id,
            ),
    {
        proof {
            lemma_filter_push(s.take(i as int), |e: PendingView| e.pane_id != pane_id, s[i as int]);
            assert(s.take(i + 1) =~= s.take(i as int).push(s[i as int]));
        }
        if pending[i].pane_id != pane_id {
            r.push(copy_pending(&pending[i]));
            assert(r@.map_values(|p: PendingAttention| pending_view(p)) =~= s.take(i as int).filter(
                |e: PendingView| e.pane_id != pane_id,
            ).push(s[i as int]));
        }
    }
    assert(s.take(n as int) =~= s);
    r
}

impl Default for AttentionQueue {
    fn default() -> (r: Self)
        ensures
            r@.pending.len() == 0,
            r@.remaining_ms is None,
    {
        AttentionQueue::new()
    }
}

} // verus!
