use vstd::prelude::*;
use vstd::utf8::{decode_utf8, encode_utf8, valid_utf8};

use crate::manifest::{
    compiled, document_error, manifest_error, manifests_view, raw_view, CompiledManifest,
    ManifestError, ManifestSetError, ManifestView, RawManifest,
};
use crate::text::{chars_of, path_file_name, string_of, str_eq, utf8_text};

verus! {

/// The shell script that prints every `*.toml` file of `$ZJA_DIR` as a frame record:
/// the name's length, NUL, the content's length, NUL, then name and content.
pub const READ_MANIFESTS_SH: &'static str = "
set -eu
export LC_ALL=C
[ -d \"$ZJA_DIR\" ] || exit 0
for path in \"$ZJA_DIR\"/*.toml; do
    [ -f \"$path\" ] || continue
    name=${path##*/}
    name_len=${#name}
    content_len=$(wc -c < \"$path\")
    content_len=$(printf '%s' \"$content_len\" | tr -d '[:space:]')
    printf '%s\\0%s\\0%s' \"$name_len\" \"$content_len\" \"$name\"
    cat \"$path\"
done
";

// ---------------------------------------------------------------------------
// Reload coalescing
// ---------------------------------------------------------------------------

/// At most one override read runs; requests made meanwhile collapse into one follow-up.
#[derive(Clone, Debug)]
pub struct ReloadController {
    active: bool,
    pending: bool,
}

impl ReloadController {
    pub fn new() -> (r: Self)
        ensures
            !r.is_active(),
            !r.has_pending(),
    {
        ReloadController { active: false, pending: false }
    }

    pub closed spec fn spec_is_active(&self) -> bool {
        self.active
    }

    pub closed spec fn has_pending(&self) -> bool {
        self.pending
    }

    /// Asks for a read; `true` when one should start now.
    pub fn request_start(&mut self) -> (start: bool)
        ensures
            start == !old(self).is_active(),
            final(self).is_active(),
            final(self).has_pending() == (old(self).has_pending() || old(self).is_active()),
    {
        if self.active {
            self.pending = true;
            false
        } else {
            self.active = true;
            true
        }
    }

    /// Ends the running read; `true` when a follow-up read starts at once.
    pub fn complete(&mut self) -> (restart: bool)
        ensures
            restart == old(self).has_pending(),
            final(self).is_active() == old(self).has_pending(),
            !final(self).has_pending(),
    {
        self.active = false;
        if self.pending {
            self.pending = false;
            self.active = true;
            true
        } else {
            false
        }
    }

    #[verifier::when_used_as_spec(spec_is_active)]
    pub fn is_active(&self) -> (r: bool)
        ensures
            r == self.spec_is_active(),
    {
        self.active
    }
}

impl Default for ReloadController {
    fn default() -> (r: Self)
        ensures
            !r.is_active(),
            !r.has_pending(),
    {
        ReloadController::new()
    }
}

// ---------------------------------------------------------------------------
// Frame parsing
// ---------------------------------------------------------------------------

#[derive(Clone, Copy, Debug, PartialEq, Eq, Structural)]
pub enum FrameError {
    InvalidLength,
    Truncated,
    TrailingJunk,
    NonUtf8Name,
    DuplicateName,
}

/// The first position at or after `i` that holds a NUL byte, or the end.
pub open spec fn nul_from(bytes: Seq<u8>, i: int) -> int
    decreases bytes.len() - i,
{
    if i >= bytes.len() || bytes[i] == 0 {
        i
    } else {
        nul_from(bytes, i + 1)
    }
}

pub open spec fn is_digit(b: u8) -> bool {
    48 <= b && b <= 57
}

/// The number that a string of decimal digits spells.
pub open spec fn digits_value(s: Seq<u8>) -> nat
    decreases s.len(),
{
    if s.len() == 0 {
        0
    } else {
        digits_value(s.drop_last()) * 10 + (s.last() - 48) as nat
    }
}

/// A NUL-terminated decimal length starting at `start`: its value and the position
/// after the NUL.
pub open spec fn length_field(bytes: Seq<u8>, start: int) -> Result<(nat, int), FrameError> {
    let z = nul_from(bytes, start);
    let digits = bytes.subrange(start, z);
    if start >= bytes.len() {
        Err(FrameError::Truncated)
    } else if exists|k: int| start <= k < z && !is_digit(#[trigger] bytes[k]) {
        Err(FrameError::InvalidLength)
    } else if digits_value(digits) > usize::MAX {
        Err(FrameError::InvalidLength)
    } else if z == start || z >= bytes.len() {
        Err(FrameError::InvalidLength)
    } else {
        Ok((digits_value(digits), z + 1))
    }
}

pub proof fn lemma_nul_from(bytes: Seq<u8>, i: int)
    requires
        0 <= i,
    ensures
        i <= nul_from(bytes, i),
        i <= bytes.len() ==> nul_from(bytes, i) <= bytes.len(),
        nul_from(bytes, i) < bytes.len() ==> bytes[nul_from(bytes, i)] == 0,
        forall|k: int| i <= k < nul_from(bytes, i) ==> bytes[k] != 0,
    decreases bytes.len() - i,
{
    if i < bytes.len() && bytes[i] != 0 {
        lemma_nul_from(bytes, i + 1);
    }
}

pub proof fn lemma_length_field_advances(bytes: Seq<u8>, start: int)
    requires
        0 <= start,
    ensures
        length_field(bytes, start) matches Ok((v, next)) ==> start < next <= bytes.len(),
{
    lemma_nul_from(bytes, start);
}

proof fn lemma_digits_value_push(s: Seq<u8>, d: u8)
    ensures
        digits_value(s.push(d)) == digits_value(s) * 10 + (d - 48) as nat,
{
    assert(s.push(d).drop_last() =~= s);
}

proof fn lemma_digits_value_grows(s: Seq<u8>, k: int)
    requires
        0 <= k <= s.len(),
        forall|j: int| 0 <= j < s.len() ==> is_digit(#[trigger] s[j]),
    ensures
        digits_value(s.take(k)) <= digits_value(s),
    decreases s.len() - k,
{
    if k < s.len() {
        lemma_digits_value_grows(s, k + 1);
        assert(s.take(k + 1).drop_last() =~= s.take(k));
        let v = digits_value(s.take(k));
        assert(v * 10 >= v) by (nonlinear_arith)
            requires
                v >= 0,
        ;
    } else {
        assert(s.take(k) =~= s);
    }
}

/// Reads a NUL-terminated decimal length at `start`.
fn read_decimal_nul(bytes: &[u8], start: usize) -> (r: Result<(usize, usize), FrameError>)
    ensures
        match r {
            Ok((v, next)) => length_field(bytes@, start as int) == Ok::<(nat, int), FrameError>(
                (v as nat, next as int),
            ),
            Err(e) => length_field(bytes@, start as int) == Err::<(nat, int), FrameError>(e),
        },
{
    let ghost b = bytes@;
    proof {
        lemma_nul_from(b, start as int);
    }
    let ghost z = nul_from(b, start as int);
    let n = bytes.len();
    if start >= n {
        return Err(FrameError::Truncated);
    }
    let mut i = start;
    let mut value: usize = 0;
    while i < n && bytes[i] != 0
        invariant
            n == b.len(),
            start < n,
            b == bytes@,
            start <= i <= z,
            z == nul_from(b, start as int),
            z <= n,
            forall|k: int| start <= k < z ==> b[k] != 0,
            z < n ==> b[z] == 0,
            forall|k: int| start <= k < i ==> is_digit(#[trigger] b[k]),
            value == digits_value(b.subrange(start as int, i as int)),
        decreases n - i,
    {
        let c = bytes[i];
        if !(48 <= c && c <= 57) {
            assert(!is_digit(b[i as int]));
            return Err(FrameError::InvalidLength);
        }
        proof {
            lemma_digits_value_push(b.subrange(start as int, i as int), c);
            assert(b.subrange(start as int, i as int).push(c) =~= b.subrange(start as int, i + 1));
        }
        let d = (c - 48) as usize;
        let next = match value.checked_mul(10) {
            Some(m) => m.checked_add(d),
            None => None,
        };
        match next {
            Some(v) => {
                value = v;
            },
            None => {
                proof {
                    // every later digit only makes the number larger
                    if forall|k: int| start <= k < z ==> is_digit(#[trigger] b[k]) {
                        let all = b.subrange(start as int, z);
                        assert forall|j: int| 0 <= j < all.len() implies is_digit(#[trigger] all[j]) by {
                            assert(all[j] == b[start + j]);
                        }
                        lemma_digits_value_grows(all, i + 1 - start);
                        assert(all.take(i + 1 - start) =~= b.subrange(start as int, i + 1));
                        assert(value * 10 + d > usize::MAX);
                    }
                }
                return Err(FrameError::InvalidLength);
            },
        }
        i = i + 1;
    }
    assert(i == z);
    if i == start || i >= n {
        return Err(FrameError::InvalidLength);
    }
    Ok((value, i + 1))
}

/// The records of a frame from position `i` on, given the names already read.
pub open spec fn frame_from(bytes: Seq<u8>, i: int, names: Seq<Seq<char>>) -> Result<
    Seq<(Seq<char>, Seq<u8>)>,
    FrameError,
>
    decreases bytes.len() - i,
{
    if i < 0 || i >= bytes.len() {
        Ok(Seq::empty())
    } else {
        match length_field(bytes, i) {
            Err(e) => Err(e),
            Ok((name_len, ni)) => match length_field(bytes, ni) {
                Err(e) => Err(e),
                Ok((content_len, ci)) => {
                    proof {
                        lemma_length_field_advances(bytes, i);
                        lemma_length_field_advances(bytes, ni);
                    }
                    let end = ci + name_len + content_len;
                    let name_bytes = bytes.subrange(ci, ci + name_len);
                    if end > bytes.len() {
                        Err(FrameError::Truncated)
                    } else if !valid_utf8(name_bytes) {
                        Err(FrameError::NonUtf8Name)
                    } else if names.contains(decode_utf8(name_bytes)) {
                        Err(FrameError::DuplicateName)
                    } else {
                        let name = decode_utf8(name_bytes);
                        match frame_from(bytes, end, names.push(name)) {
                            Err(e) => Err(e),
                            Ok(rest) => Ok(
                                seq![(name, bytes.subrange(ci + name_len, end))] + rest,
                            ),
                        }
                    }
                },
            },
        }
    }
}

/// The records of a framed override read.
pub open spec fn frame_records(bytes: Seq<u8>) -> Result<Seq<(Seq<char>, Seq<u8>)>, FrameError> {
    frame_from(bytes, 0, Seq::empty())
}

pub open spec fn record_view(r: (String, Vec<u8>)) -> (Seq<char>, Seq<u8>) {
    (r.0@, r.1@)
}

pub open spec fn records_view(rs: Seq<(String, Vec<u8>)>) -> Seq<(Seq<char>, Seq<u8>)> {
    rs.map_values(|r: (String, Vec<u8>)| record_view(r))
}

fn slice_to_vec(bytes: &[u8], from: usize, to: usize) -> (r: Vec<u8>)
    requires
        from <= to <= bytes@.len(),
    ensures
        r@ == bytes@.subrange(from as int, to as int),
{
    let mut r: Vec<u8> = Vec::new();
    let mut k = from;
    while k < to
        invariant
            from <= k <= to <= bytes@.len(),
            r@ == bytes@.subrange(from as int, k as int),
        decreases to - k,
    {
        r.push(bytes[k]);
        k = k + 1;
        assert(r@ =~= bytes@.subrange(from as int, k as int));
    }
    r
}

fn contains_name(seen: &Vec<String>, name: &String) -> (r: bool)
    ensures
        r == seen@.map_values(|s: String| s@).contains(name@),
{
    let ghost sv = seen@.map_values(|s: String| s@);
    let n = seen.len();
    for i in 0..n
        invariant
            n == seen@.len(),
            sv == seen@.map_values(|s: String| s@),
            forall|j: int| 0 <= j < i ==> sv[j] != name@,
    {
        if str_eq(seen[i].as_str(), name.as_str()) {
            assert(sv[i as int] == name@);
            return true;
        }
    }
    false
}

/// The ASCII decimal digits of `n`, as the frame writes lengths.
pub open spec fn ascii_digits(n: nat) -> Seq<u8>
    decreases n,
{
    if n < 10 {
        seq![(48 + n) as u8]
    } else {
        ascii_digits(n / 10).push((48 + n % 10) as u8)
    }
}

/// One record as the override read frames it: the name's byte length and the content's
/// length, each in decimal and NUL-terminated, then the name's UTF-8 bytes and the content.
pub open spec fn framed_record(r: (Seq<char>, Seq<u8>)) -> Seq<u8> {
    let nb = encode_utf8(r.0);
    ascii_digits(nb.len()).push(0u8) + ascii_digits(r.1.len()).push(0u8) + nb + r.1
}

/// Records framed one after the other.
pub open spec fn framed(rs: Seq<(Seq<char>, Seq<u8>)>) -> Seq<u8>
    decreases rs.len(),
{
    if rs.len() == 0 {
        Seq::empty()
    } else {
        framed_record(rs[0]) + framed(rs.drop_first())
    }
}

/// No record is named like one in `names` or like another record.
pub open spec fn names_fresh(names: Seq<Seq<char>>, rs: Seq<(Seq<char>, Seq<u8>)>) -> bool {
    &&& forall|i: int| 0 <= i < rs.len() ==> !names.contains((#[trigger] rs[i]).0)
    &&& forall|i: int, j: int| 0 <= i < j < rs.len() ==> (#[trigger] rs[i]).0 != (#[trigger] rs[j]).0
}

/// Every length a record frames fits in a `usize`.
pub open spec fn lengths_fit(rs: Seq<(Seq<char>, Seq<u8>)>) -> bool {
    forall|i: int|
        0 <= i < rs.len() ==> encode_utf8((#[trigger] rs[i]).0).len() <= usize::MAX && rs[i].1.len()
            <= usize::MAX
}

proof fn lemma_ascii_digits(n: nat)
    ensures
        ascii_digits(n).len() > 0,
        forall|k: int|
            0 <= k < ascii_digits(n).len() ==> is_digit(#[trigger] ascii_digits(n)[k])
                && ascii_digits(n)[k] != 0,
        digits_value(ascii_digits(n)) == n,
    decreases n,
{
    if n >= 10 {
        lemma_ascii_digits(n / 10);
        let d = ascii_digits(n / 10);
        let c = (48 + n % 10) as u8;
        let a = ascii_digits(n);
        assert(a == d.push(c));
        assert(a.drop_last() =~= d);
        assert forall|k: int| 0 <= k < a.len() implies is_digit(#[trigger] a[k]) && a[k] != 0 by {
            if k < d.len() {
                assert(a[k] == d[k]);
            }
        }
        assert(c as nat == 48 + n % 10);
        assert(a.last() == c);
        assert(digits_value(a) == digits_value(d) * 10 + (c - 48) as nat);
        assert(n == (n / 10) * 10 + n % 10);
    } else {
        let a = ascii_digits(n);
        let c = (48 + n) as u8;
        assert(c as nat == 48 + n);
        assert(a.drop_last() =~= Seq::<u8>::empty());
        assert(a.last() == c);
        assert(digits_value(a) == digits_value(a.drop_last()) * 10 + (c - 48) as nat);
    }
}

proof fn lemma_nul_at(bytes: Seq<u8>, i: int, z: int)
    requires
        0 <= i <= z < bytes.len(),
        bytes[z] == 0,
        forall|k: int| i <= k < z ==> bytes[k] != 0,
    ensures
        nul_from(bytes, i) == z,
    decreases z - i,
{
    if i < z {
        lemma_nul_at(bytes, i + 1, z);
    }
}

proof fn lemma_length_field_reads(bytes: Seq<u8>, start: int, n: nat)
    requires
        0 <= start,
        start + ascii_digits(n).len() < bytes.len(),
        bytes.subrange(start, start + ascii_digits(n).len()) == ascii_digits(n),
        bytes[start + ascii_digits(n).len()] == 0,
        n <= usize::MAX,
    ensures
        length_field(bytes, start) == Ok::<(nat, int), FrameError>((n, start + ascii_digits(n).len() + 1)),
{
    lemma_ascii_digits(n);
    let d = ascii_digits(n);
    let z = start + d.len();
    assert forall|k: int| start <= k < z implies bytes[k] != 0 && is_digit(#[trigger] bytes[k]) by {
        assert(bytes[k] == bytes.subrange(start, z)[k - start]);
    }
    lemma_nul_at(bytes, start, z);
}

/// Where one framed record sits in `bytes` at `i`, the reader finds its two lengths,
/// its name and its content there.
proof fn lemma_record_reads(bytes: Seq<u8>, i: int, r: (Seq<char>, Seq<u8>))
    requires
        0 <= i,
        i + framed_record(r).len() <= bytes.len(),
        forall|k: int| 0 <= k < framed_record(r).len() ==> #[trigger] bytes[i + k] == framed_record(r)[k],
        encode_utf8(r.0).len() <= usize::MAX,
        r.1.len() <= usize::MAX,
    ensures
        ({
            let nb = encode_utf8(r.0);
            let ni = i + ascii_digits(nb.len()).len() + 1;
            let ci = ni + ascii_digits(r.1.len()).len() + 1;
            &&& length_field(bytes, i) == Ok::<(nat, int), FrameError>((nb.len(), ni))
            &&& length_field(bytes, ni) == Ok::<(nat, int), FrameError>((r.1.len(), ci))
            &&& ci + nb.len() + r.1.len() == i + framed_record(r).len()
            &&& bytes.subrange(ci, ci + nb.len()) == nb
            &&& bytes.subrange(ci + nb.len(), ci + nb.len() + r.1.len()) == r.1
        }),
{
    let nb = encode_utf8(r.0);
    let dn = ascii_digits(nb.len());
    let dc = ascii_digits(r.1.len());
    let rec = framed_record(r);
    lemma_ascii_digits(nb.len());
    lemma_ascii_digits(r.1.len());
    let a = dn.len() as int;
    let b = dc.len() as int;
    let ni = i + a + 1;
    let ci = ni + b + 1;
    let nend = ci + nb.len();
    assert(rec =~= dn.push(0u8) + dc.push(0u8) + nb + r.1);
    assert(bytes.subrange(i, i + a) =~= dn) by {
        assert forall|k: int| 0 <= k < a implies bytes.subrange(i, i + a)[k] == dn[k] by {
            assert(bytes[i + k] == rec[k]);
        }
    }
    assert(bytes[i + a] == rec[a]);
    lemma_length_field_reads(bytes, i, nb.len());
    assert(bytes.subrange(ni, ni + b) =~= dc) by {
        assert forall|k: int| 0 <= k < b implies bytes.subrange(ni, ni + b)[k] == dc[k] by {
            assert(bytes[i + (a + 1 + k)] == rec[a + 1 + k]);
        }
    }
    assert(bytes[i + (a + 1 + b)] == rec[a + 1 + b]);
    lemma_length_field_reads(bytes, ni, r.1.len());
    assert(bytes.subrange(ci, nend) =~= nb) by {
        assert forall|k: int| 0 <= k < nb.len() implies bytes.subrange(ci, nend)[k] == nb[k] by {
            assert(bytes[i + (a + 1 + b + 1 + k)] == rec[a + 1 + b + 1 + k]);
        }
    }
    assert(bytes.subrange(nend, nend + r.1.len()) =~= r.1) by {
        assert forall|k: int| 0 <= k < r.1.len() implies bytes.subrange(nend, nend + r.1.len())[k]
            == r.1[k] by {
            assert(bytes[i + (a + 1 + b + 1 + nb.len() + k)] == rec[a + 1 + b + 1 + nb.len() + k]);
        }
    }
}

proof fn lemma_fresh_step(names: Seq<Seq<char>>, rs: Seq<(Seq<char>, Seq<u8>)>)
    requires
        rs.len() > 0,
        !names.contains(rs[0].0),
    ensures
        names_fresh(names.push(rs[0].0), rs.drop_first()) == names_fresh(names, rs),
{
    let r = rs[0];
    let rest = rs.drop_first();
    let np = names.push(r.0);
    if names_fresh(names, rs) {
        assert forall|k: int| 0 <= k < rest.len() implies !np.contains((#[trigger] rest[k]).0) by {
            assert(rest[k] == rs[k + 1]);
            assert(rs[0].0 != rs[k + 1].0);
            assert(!names.contains(rs[k + 1].0));
            if np.contains(rest[k].0) {
                let m = choose|m: int| 0 <= m < np.len() && np[m] == rest[k].0;
                if m < names.len() {
                    assert(names[m] == rest[k].0);
                }
            }
        }
        assert forall|a: int, b: int| 0 <= a < b < rest.len() implies (#[trigger] rest[a]).0 != (
        #[trigger] rest[b]).0 by {
            assert(rest[a] == rs[a + 1] && rest[b] == rs[b + 1]);
        }
    }
    if names_fresh(np, rest) {
        assert forall|k: int| 0 <= k < rs.len() implies !names.contains((#[trigger] rs[k]).0) by {
            if k > 0 {
                assert(rs[k] == rest[k - 1]);
                if names.contains(rs[k].0) {
                    let m = choose|m: int| 0 <= m < names.len() && names[m] == rs[k].0;
                    assert(np[m] == rs[k].0);
                }
            }
        }
        assert forall|a: int, b: int| 0 <= a < b < rs.len() implies (#[trigger] rs[a]).0 != (
        #[trigger] rs[b]).0 by {
            assert(rs[b] == rest[b - 1]);
            if a == 0 {
                assert(np[names.len() as int] == r.0);
                assert(np.contains(r.0));
            } else {
                assert(rs[a] == rest[a - 1]);
            }
        }
    }
}

proof fn lemma_frame_from_framed(pre: Seq<u8>, rs: Seq<(Seq<char>, Seq<u8>)>, names: Seq<Seq<char>>)
    requires
        lengths_fit(rs),
    ensures
        frame_from(pre + framed(rs), pre.len() as int, names) == if names_fresh(names, rs) {
            Ok::<Seq<(Seq<char>, Seq<u8>)>, FrameError>(rs)
        } else {
            Err::<Seq<(Seq<char>, Seq<u8>)>, FrameError>(FrameError::DuplicateName)
        },
    decreases rs.len(),
{
    broadcast use vstd::utf8::encode_utf8_valid_utf8, vstd::utf8::encode_utf8_decode_utf8;

    let bytes = pre + framed(rs);
    let i = pre.len() as int;
    if rs.len() == 0 {
        assert(bytes =~= pre);
        assert(rs =~= Seq::<(Seq<char>, Seq<u8>)>::empty());
        assert(names_fresh(names, rs));
    } else {
        let r = rs[0];
        let rest = rs.drop_first();
        let rec = framed_record(r);
        let pre2 = pre + rec;
        assert(bytes =~= pre2 + framed(rest));
        assert forall|k: int| 0 <= k < rec.len() implies #[trigger] bytes[i + k] == rec[k] by {
            assert(bytes[i + k] == pre2[i + k]);
        }
        assert(encode_utf8(rs[0].0).len() <= usize::MAX && rs[0].1.len() <= usize::MAX);
        lemma_record_reads(bytes, i, r);
        assert(lengths_fit(rest)) by {
            assert forall|k: int| 0 <= k < rest.len() implies encode_utf8((#[trigger] rest[k]).0).len()
                <= usize::MAX && rest[k].1.len() <= usize::MAX by {
                assert(rest[k] == rs[k + 1]);
            }
        }
        lemma_frame_from_framed(pre2, rest, names.push(r.0));
        let nb = encode_utf8(r.0);
        let ni = i + ascii_digits(nb.len()).len() + 1;
        let ci = ni + ascii_digits(r.1.len()).len() + 1;
        let end = ci + nb.len() + r.1.len();
        assert(end == pre2.len());
        assert(i < bytes.len());
        assert(bytes.subrange(ci, ci + nb.len()) == nb);
        assert(valid_utf8(nb));
        assert(decode_utf8(nb) == r.0);
        assert(bytes.subrange(ci + nb.len(), end) == r.1);
        assert(pre2.len() as int == end);
        if names.contains(r.0) {
            assert(!names_fresh(names, rs));
            assert(frame_from(bytes, i, names) == Err::<Seq<(Seq<char>, Seq<u8>)>, FrameError>(FrameError::DuplicateName));
        } else {
            lemma_fresh_step(names, rs);
            assert(seq![(r.0, r.1)] + rest =~= rs);
            assert(frame_from(bytes, end, names.push(r.0)) == frame_from(pre2 + framed(rest), pre2.len() as int, names.push(r.0)));
            assert(frame_from(bytes, i, names) == match frame_from(bytes, end, names.push(r.0)) {
                Err(e) => Err(e),
                Ok(more) => Ok::<Seq<(Seq<char>, Seq<u8>)>, FrameError>(seq![(r.0, r.1)] + more),
            });
            if names_fresh(names, rs) {
                assert(frame_from(bytes, i, names) == Ok::<Seq<(Seq<char>, Seq<u8>)>, FrameError>(seq![(r.0, r.1)] + rest));
            }
        }
    }
}

/// Reading back framed records gives the records as they were, when no two share a name;
/// otherwise the read fails on the repeated name. Nothing framed reads as nothing.
pub proof fn lemma_frame_round_trip(rs: Seq<(Seq<char>, Seq<u8>)>)
    requires
        lengths_fit(rs),
    ensures
        (forall|i: int, j: int| 0 <= i < j < rs.len() ==> (#[trigger] rs[i]).0 != (#[trigger] rs[j]).0)
            ==> frame_records(framed(rs)) == Ok::<Seq<(Seq<char>, Seq<u8>)>, FrameError>(rs),
        !(forall|i: int, j: int| 0 <= i < j < rs.len() ==> (#[trigger] rs[i]).0 != (#[trigger] rs[j]).0)
            ==> frame_records(framed(rs)) == Err::<Seq<(Seq<char>, Seq<u8>)>, FrameError>(
            FrameError::DuplicateName,
        ),
{
    lemma_frame_from_framed(Seq::empty(), rs, Seq::empty());
    assert(Seq::<u8>::empty() + framed(rs) =~= framed(rs));
}

/// Splits a framed override read into `(file name, content)` records.
pub fn parse_manifest_frame(bytes: &[u8]) -> (r: Result<Vec<(String, Vec<u8>)>, FrameError>)
    ensures
        match r {
            Ok(rs) => frame_records(bytes@) == Ok::<Seq<(Seq<char>, Seq<u8>)>, FrameError>(
                records_view(rs@),
            ),
            Err(e) => frame_records(bytes@) == Err::<Seq<(Seq<char>, Seq<u8>)>, FrameError>(e),
        },
{
    let ghost b = bytes@;
    let mut out: Vec<(String, Vec<u8>)> = Vec::new();
    let mut seen: Vec<String> = Vec::new();
    let n = bytes.len();
    let mut i: usize = 0;
    proof {
        assert(seen@.map_values(|s: String| s@) =~= Seq::<Seq<char>>::empty());
        assert(records_view(out@) =~= Seq::<(Seq<char>, Seq<u8>)>::empty());
        match frame_from(b, 0, Seq::empty()) {
            Ok(rest) => {
                assert(records_view(out@) + rest =~= rest);
            },
            Err(e) => {},
        }
    }
    while i < n
        invariant
            n == b.len(),
            b == bytes@,
            i <= n,
            seen@.map_values(|s: String| s@) == records_view(out@).map_values(
                |r: (Seq<char>, Seq<u8>)| r.0,
            ),
            frame_records(b) == match frame_from(b, i as int, seen@.map_values(|s: String| s@)) {
                Ok(rest) => Ok(records_view(out@) + rest),
                Err(e) => Err(e),
            },
        decreases n - i,
    {
        let ghost names = seen@.map_values(|s: String| s@);
        let (name_len, ni) = match read_decimal_nul(bytes, i) {
            Ok(p) => p,
            Err(e) => {
                return Err(e);
            },
        };
        let (content_len, ci) = match read_decimal_nul(bytes, ni) {
            Ok(p) => p,
            Err(e) => {
                return Err(e);
            },
        };
        proof {
            lemma_length_field_advances(b, i as int);
            lemma_length_field_advances(b, ni as int);
        }
        if name_len > n - ci || content_len > n - ci - name_len {
            return Err(FrameError::Truncated);
        }
        let name_end = ci + name_len;
        let end = name_end + content_len;
        let name_bytes = slice_to_vec(bytes, ci, name_end);
        let name = match utf8_text(name_bytes.as_slice()) {
            Some(s) => s,
            None => {
                return Err(FrameError::NonUtf8Name);
            },
        };
        if contains_name(&seen, &name) {
            return Err(FrameError::DuplicateName);
        }
        let content = slice_to_vec(bytes, name_end, end);
        let ghost before = out@;
        let ghost rec = (name@, content@);
        let ghost before_seen = seen@;
        let name_copy = name.clone();
        seen.push(name_copy);
        out.push((name, content));
        proof {
            assert(seen@.map_values(|s: String| s@) =~= names.push(rec.0));
            assert(records_view(out@) =~= records_view(before).push(rec));
            assert(records_view(out@).map_values(|r: (Seq<char>, Seq<u8>)| r.0) =~= records_view(
                before,
            ).map_values(|r: (Seq<char>, Seq<u8>)| r.0).push(rec.0));
            match frame_from(b, end as int, names.push(rec.0)) {
                Ok(rest) => {
                    assert(records_view(before) + (seq![rec] + rest) =~= records_view(out@) + rest);
                },
                Err(e) => {},
            }
        }
        i = end;
    }
    proof {
        assert(records_view(out@) + Seq::empty() =~= records_view(out@));
    }
    Ok(out)
}

// ---------------------------------------------------------------------------
// Override directory
// ---------------------------------------------------------------------------

#[derive(Debug)]
pub struct ManifestDirError;

/// `PathBuf::push`: an absolute path replaces the base; otherwise it is appended,
/// with a separator unless the base is empty or already ends in one.
pub open spec fn joined(base: Seq<char>, path: Seq<char>) -> Seq<char> {
    if path.len() > 0 && path[0] == '/' {
        path
    } else if base.len() == 0 || base.last() == '/' {
        base + path
    } else {
        base + "/"@ + path
    }
}

/// The default override directory below the home directory.
pub open spec fn default_manifest_subdir() -> Seq<char> {
    ".config/zellij/zj-agents/agent-detection"@
}

/// Where overrides are read from: the configured absolute directory, a `~/` path below
/// home, or the default below home; anything else is refused, as is needing a home
/// that is not known.
pub open spec fn manifest_dir_for(configured: Option<Seq<char>>, home: Option<Seq<char>>) -> Option<
    Seq<char>,
> {
    match configured {
        Some(raw) if raw.len() > 0 => {
            if raw.len() >= 2 && raw[0] == '~' && raw[1] == '/' {
                match home {
                    Some(h) => Some(joined(h, raw.skip(2))),
                    None => None,
                }
            } else if raw[0] == '/' {
                Some(raw)
            } else {
                None
            }
        },
        _ => match home {
            Some(h) => Some(joined(h, default_manifest_subdir())),
            None => None,
        },
    }
}

fn join_path(base: &str, path: &[char]) -> (r: String)
    ensures
        r@ == joined(base@, path@),
{
    let b = chars_of(base);
    if path.len() > 0 && path[0] == '/' {
        return string_of(path);
    }
    let mut out: Vec<char> = b;
    if out.len() > 0 && out[out.len() - 1] != '/' {
        out.push('/');
    }
    let ghost head = out@;
    let n = path.len();
    for i in 0..n
        invariant
            n == path@.len(),
            out@ == head + path@.take(i as int),
    {
        out.push(path[i]);
        assert(out@ =~= head + path@.take(i + 1));
    }
    assert(path@.take(n as int) =~= path@);
    proof {
        reveal_strlit("/");
        assert(base@.len() > 0 && base@.last() != '/' ==> head =~= base@ + "/"@);
    }
    string_of(out.as_slice())
}

pub fn resolve_manifest_dir(configured: Option<&str>, home: Option<&str>) -> (r: Result<
    String,
    ManifestDirError,
>)
    ensures
        match r {
            Ok(p) => manifest_dir_for(
                match configured {
                    Some(c) => Some(c@),
                    None => None,
                },
                match home {
                    Some(h) => Some(h@),
                    None => None,
                },
            ) == Some(p@),
            Err(_) => manifest_dir_for(
                match configured {
                    Some(c) => Some(c@),
                    None => None,
                },
                match home {
                    Some(h) => Some(h@),
                    None => None,
                },
            ) is None,
        },
{
    let raw = match configured {
        Some(c) => chars_of(c),
        None => Vec::new(),
    };
    if raw.len() == 0 {
        return match home {
            Some(h) => {
                let sub = chars_of(".config/zellij/zj-agents/agent-detection");
                Ok(join_path(h, sub.as_slice()))
            },
            None => Err(ManifestDirError),
        };
    }
    if raw.len() >= 2 && raw[0] == '~' && raw[1] == '/' {
        return match home {
            Some(h) => {
                let mut rest: Vec<char> = Vec::new();
                let n = raw.len();
                for i in 2..n
                    invariant
                        n == raw@.len(),
                        2 <= n,
                        rest@ == raw@.subrange(2, i as int),
                {
                    rest.push(raw[i]);
                    assert(rest@ =~= raw@.subrange(2, i + 1));
                }
                assert(rest@ =~= raw@.skip(2));
                Ok(join_path(h, rest.as_slice()))
            },
            None => Err(ManifestDirError),
        };
    }
    if raw[0] == '/' {
        return Ok(string_of(raw.as_slice()));
    }
    Err(ManifestDirError)
}

// ---------------------------------------------------------------------------
// Adopting override manifests
// ---------------------------------------------------------------------------

/// One override file: its name, its bytes, and the manifest document that the TOML
/// reader made of those bytes (`None` where they are not one).
#[derive(Clone, Debug)]
pub struct ManifestRecord {
    pub file_name: String,
    pub content: Vec<u8>,
    pub document: Option<RawManifest>,
}

/// An override record as plain values.
pub struct RecordView {
    pub file_name: Seq<char>,
    pub content: Seq<u8>,
    pub document: Option<RawManifest>,
}

pub open spec fn manifest_record_view(r: ManifestRecord) -> RecordView {
    RecordView { file_name: r.file_name@, content: r.content@, document: r.document }
}

pub open spec fn records_of(rs: Seq<ManifestRecord>) -> Seq<RecordView> {
    rs.map_values(|r: ManifestRecord| manifest_record_view(r))
}

/// Why an override record is refused, if it is: bytes that are not UTF-8 text, or a
/// document that does not validate.
pub open spec fn record_error(r: RecordView) -> Option<ManifestError> {
    if !valid_utf8(r.content) {
        Some(ManifestError::Parse)
    } else {
        manifest_error(
            crate::manifest::path_file_stem(r.file_name),
            match r.document {
                Some(m) => Some(raw_view(m)),
                None => None,
            },
        )
    }
}

/// The first position of a manifest named `name`, or -1.
pub open spec fn first_named(s: Seq<ManifestView>, name: Seq<char>) -> int
    decreases s.len(),
{
    if s.len() == 0 {
        -1
    } else if s[0].name == name {
        0
    } else {
        let k = first_named(s.drop_first(), name);
        if k < 0 {
            -1
        } else {
            k + 1
        }
    }
}

/// `m` in place of the first manifest of its name, or appended where none has it.
pub open spec fn upserted(s: Seq<ManifestView>, m: ManifestView) -> Seq<ManifestView> {
    let k = first_named(s, m.name);
    if k < 0 {
        s.push(m)
    } else {
        s.update(k, m)
    }
}

/// The set after adopting each record in turn.
pub open spec fn adopted(base: Seq<ManifestView>, records: Seq<RecordView>) -> Seq<ManifestView>
    decreases records.len(),
{
    if records.len() == 0 {
        base
    } else {
        upserted(
            adopted(base, records.drop_last()),
            compiled(raw_view(records.last().document->0)),
        )
    }
}

pub proof fn lemma_first_named(s: Seq<ManifestView>, name: Seq<char>, k: int)
    requires
        0 <= k <= s.len(),
        forall|j: int| 0 <= j < k ==> (#[trigger] s[j]).name != name,
        k < s.len() ==> s[k].name == name,
    ensures
        first_named(s, name) == if k < s.len() {
            k
        } else {
            -1
        },
    decreases k,
{
    if k > 0 {
        assert(s[0].name != name);
        assert forall|j: int| 0 <= j < k - 1 implies (#[trigger] s.drop_first()[j]).name != name by {
            assert(s.drop_first()[j] == s[j + 1]);
        }
        lemma_first_named(s.drop_first(), name, k - 1);
    }
}

/// The manifest set with the override records adopted: each replaces the manifest of
/// its name, or joins the set. A bundled set that failed to compile, or any refused
/// record, fails the whole adoption with the first error.
pub fn adopt_overrides(
    bundled: &Result<Vec<CompiledManifest>, ManifestSetError>,
    records: &[ManifestRecord],
) -> (r: Result<Vec<CompiledManifest>, ManifestError>)
    ensures
        match bundled {
            Err(_) => r == Err::<Vec<CompiledManifest>, ManifestError>(ManifestError::Parse),
            Ok(b) => match r {
                Ok(v) => (forall|i: int|
                    0 <= i < records@.len() ==> record_error(#[trigger] records_of(records@)[i]) is None)
                    && manifests_view(v@) == adopted(manifests_view(b@), records_of(records@)),
                Err(e) => exists|i: int|
                    {
                        &&& 0 <= i < records@.len()
                        &&& forall|j: int|
                            0 <= j < i ==> record_error(#[trigger] records_of(records@)[j]) is None
                        &&& record_error(records_of(records@)[i]) == Some(e)
                    },
            },
        },
{
    let base = match bundled {
        Ok(b) => b,
        Err(_) => {
            return Err(ManifestError::Parse);
        },
    };
    let mut set: Vec<CompiledManifest> = Vec::new();
    let nb = base.len();
    for i in 0..nb
        invariant
            nb == base@.len(),
            set@.len() == i,
            manifests_view(set@) == manifests_view(base@.take(i as int)),
    {
        let m = base[i].duplicate();
        let ghost old_set = set@;
        set.push(m);
        assert(set@[i as int]@ == base@[i as int]@);
        assert(manifests_view(set@) =~= manifests_view(old_set).push(base@[i as int]@));
        assert(base@.take(i + 1) =~= base@.take(i as int).push(base@[i as int]));
        assert(manifests_view(base@.take(i + 1)) =~= manifests_view(base@.take(i as int)).push(
            base@[i as int]@,
        ));
    }
    assert(base@.take(nb as int) =~= base@);
    let ghost bv = manifests_view(base@);
    let n = records.len();
    for i in 0..n
        invariant
            n == records@.len(),
            bv == manifests_view(base@),
            *bundled == Ok::<Vec<CompiledManifest>, ManifestSetError>(*base),
            forall|j: int| 0 <= j < i ==> record_error(#[trigger] records_of(records@)[j]) is None,
            manifests_view(set@) == adopted(bv, records_of(records@).take(i as int)),
    {
        let rec = &records[i];
        proof {
            let rv = records_of(records@);
            assert(rv.take(i + 1).drop_last() =~= rv.take(i as int));
            assert(rv.take(i + 1).last() == manifest_record_view(*rec));
            assert(rv[i as int] == manifest_record_view(*rec));
        }
        if utf8_text(rec.content.as_slice()).is_none() {
            return Err(ManifestError::Parse);
        }
        let doc = match &rec.document {
            Some(d) => Some(d),
            None => None,
        };
        let m = match CompiledManifest::parse(rec.file_name.as_str(), doc) {
            Ok(m) => m,
            Err(e) => {
                return Err(e);
            },
        };
        let ghost before = manifests_view(set@);
        let ghost mv = m@;
        let count = set.len();
        let mut k: usize = 0;
        while k < count
            invariant
                count == set@.len(),
                k <= count,
                mv == m@,
                before == manifests_view(set@),
                forall|j: int| 0 <= j < k ==> (#[trigger] before[j]).name != mv.name,
            ensures
                k <= count,
                forall|j: int| 0 <= j < k ==> (#[trigger] before[j]).name != mv.name,
                k < count ==> before[k as int].name == mv.name,
            decreases count - k,
        {
            assert(before[k as int] == set@[k as int]@);
            if str_eq(set[k].name(), m.name()) {
                break;
            }
            k = k + 1;
        }
        proof {
            lemma_first_named(before, mv.name, k as int);
        }
        if k < count {
            set.set(k, m);
            assert(manifests_view(set@) =~= before.update(k as int, mv));
        } else {
            set.push(m);
            assert(manifests_view(set@) =~= before.push(mv));
        }
    }
    assert(records_of(records@).take(n as int) =~= records_of(records@));
    Ok(set)
}

} // verus!
