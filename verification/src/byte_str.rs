//! A borrowed string of bytes, compared and shown by its content.
use vstd::prelude::*;
use vstd::string::*;
use vstd::utf8::*;

verus! {

/// A borrowed run of bytes (text or raw binary data).
#[derive(Clone, Copy, Eq, Hash)]
pub struct ByteStr<'a>(pub &'a [u8]);

/// A mutably borrowed run of bytes.
pub struct ByteStrMut<'a>(pub &'a mut [u8]);

impl<'a> View for ByteStr<'a> {
    type V = Seq<u8>;

    open spec fn view(&self) -> Seq<u8> {
        self.0@
    }
}

/// The decimal digits of `n`.
pub open spec fn decimal(n: nat) -> Seq<char>
    decreases n,
{
    if n < 10 {
        seq![(48 + n) as char]
    } else {
        decimal(n / 10) + seq![(48 + n % 10) as char]
    }
}

/// The number that the digits `s` stand for, read in base ten.
pub open spec fn digits_value(s: Seq<char>) -> int
    decreases s.len(),
{
    if s.len() == 0 {
        0
    } else {
        digits_value(s.drop_last()) * 10 + (s.last() as int - 48)
    }
}

/// `decimal(n)` writes `n` in base ten: one digit or more, each in `'0'..='9'`, no leading
/// zero unless `n` is 0, and read back in base ten they give `n`.
pub proof fn lemma_decimal_reads_back(n: nat)
    ensures
        decimal(n).len() > 0,
        forall|i: int| 0 <= i < decimal(n).len() ==> '0' <= #[trigger] decimal(n)[i] <= '9',
        digits_value(decimal(n)) == n,
        decimal(n).len() > 1 ==> decimal(n)[0] != '0',
        n > 0 ==> decimal(n)[0] != '0',
    decreases n,
{
    if n < 10 {
        assert(decimal(n) == seq![(48 + n) as char]);
        assert(decimal(n).drop_last() =~= Seq::<char>::empty());
        assert(((48 + n) as char) as int == 48 + n);
        assert(digits_value(decimal(n).drop_last()) == 0);
        assert(decimal(n).last() == (48 + n) as char);
    } else {
        let q = n / 10;
        let d = n % 10;
        lemma_decimal_reads_back(q);
        let s = decimal(n);
        assert(s == decimal(q) + seq![(48 + d) as char]);
        assert(s.drop_last() =~= decimal(q));
        assert(s.last() == (48 + d) as char);
        assert(((48 + d) as char) as int == 48 + d);
        assert(n == q * 10 + d);
        assert(q > 0);
        assert forall|i: int| 0 <= i < s.len() implies '0' <= #[trigger] s[i] <= '9' by {
            if i < decimal(q).len() {
                assert(s[i] == decimal(q)[i]);
            }
        }
        assert(s[0] == decimal(q)[0]);
    }
}

/// The bytes in decimal, separated by `", "`.
pub open spec fn decimal_list(bytes: Seq<u8>) -> Seq<char>
    decreases bytes.len(),
{
    if bytes.len() == 0 {
        Seq::empty()
    } else if bytes.len() == 1 {
        decimal(bytes[0] as nat)
    } else {
        decimal_list(bytes.drop_last()) + seq![',', ' '] + decimal(bytes.last() as nat)
    }
}

/// What `{:?}` writes for a slice of bytes: the bytes in decimal, separated by `", "`,
/// between square brackets (`[104, 105]`, `[]`).
pub open spec fn byte_list_debug(bytes: Seq<u8>) -> Seq<char> {
    seq!['['] + decimal_list(bytes) + seq![']']
}

/// The list of bytes: `[]` for none, `[b]` for one, and each further byte adds `", "` and
/// its decimal digits before the closing bracket.
pub proof fn lemma_byte_list_debug(bytes: Seq<u8>, b: u8)
    ensures
        byte_list_debug(Seq::empty()) == seq!['[', ']'],
        byte_list_debug(seq![b]) == seq!['['] + decimal(b as nat) + seq![']'],
        bytes.len() > 0 ==> byte_list_debug(bytes.push(b)) == byte_list_debug(bytes).drop_last() + seq![',', ' ']
            + decimal(b as nat) + seq![']'],
{
    assert(byte_list_debug(Seq::empty()) =~= seq!['[', ']']);
    assert(seq![b].len() == 1);
    assert(byte_list_debug(seq![b]) =~= seq!['['] + decimal(b as nat) + seq![']']);
    if bytes.len() > 0 {
        let t = bytes.push(b);
        assert(t.drop_last() =~= bytes);
        assert(t.len() > 1);
        assert(byte_list_debug(bytes).drop_last() =~= seq!['['] + decimal_list(bytes));
        assert(byte_list_debug(t) =~= byte_list_debug(bytes).drop_last() + seq![',', ' '] + decimal(b as nat) + seq![']']);
    }
}

/// How a run of bytes is shown: as text when it is valid UTF-8, else as a list of bytes.
pub open spec fn byte_str_debug(bytes: Seq<u8>) -> Seq<char> {
    if valid_utf8(bytes) {
        decode_utf8(bytes)
    } else {
        byte_list_debug(bytes)
    }
}

/// Calls `std::str::from_utf8`: the bytes as a string slice when they are valid UTF-8.
#[verifier::external_body]
pub(crate) fn utf8_str<'b>(bytes: &'b [u8]) -> (r: Option<&'b str>)
    ensures
        r is Some <==> valid_utf8(bytes@),
        r matches Some(s) ==> s@ == decode_utf8(bytes@) && s.spec_bytes() == bytes@,
{
    std::str::from_utf8(bytes).ok()
}

/// The decimal digit `d`.
fn digit_str(d: usize) -> (r: &'static str)
    requires
        d < 10,
    ensures
        r@ == seq![(48 + d) as char],
{
    proof {
        reveal_strlit("0");
        reveal_strlit("1");
        reveal_strlit("2");
        reveal_strlit("3");
        reveal_strlit("4");
        reveal_strlit("5");
        reveal_strlit("6");
        reveal_strlit("7");
        reveal_strlit("8");
        reveal_strlit("9");
    }
    match d {
        0 => "0",
        1 => "1",
        2 => "2",
        3 => "3",
        4 => "4",
        5 => "5",
        6 => "6",
        7 => "7",
        8 => "8",
        _ => "9",
    }
}

/// Appends the decimal digits of `n` to `out`.
pub fn push_decimal(out: &mut String, n: usize)
    ensures
        final(out)@ == old(out)@ + decimal(n as nat),
    decreases n,
{
    if n < 10 {
        out.append(digit_str(n));
    } else {
        push_decimal(out, n / 10);
        out.append(digit_str(n % 10));
        proof {
            assert(decimal(n as nat) == decimal((n / 10) as nat) + seq![(48 + n % 10) as char]);
        }
    }
}

/// Writes bytes as `{:?}` writes a slice of bytes: each byte in decimal, separated by `", "`,
/// between square brackets.
fn bytes_debug(bytes: &[u8]) -> (r: String)
    ensures
        r@ == byte_list_debug(bytes@),
{
    let mut out = String::new();
    proof {
        reveal_strlit("[");
        reveal_strlit(", ");
        reveal_strlit("]");
    }
    out.append("[");
    let n = bytes.len();
    let mut i: usize = 0;
    while i < n
        invariant
            n == bytes@.len(),
            i <= n,
            out@ == seq!['['] + decimal_list(bytes@.take(i as int)),
        decreases n - i,
    {
        let ghost before = out@;
        if i > 0 {
            out.append(", ");
        }
        let ghost mid = out@;
        push_decimal(&mut out, bytes[i] as usize);
        proof {
            let t = bytes@.take(i + 1);
            let d = decimal(bytes@[i as int] as nat);
            assert(t.drop_last() =~= bytes@.take(i as int));
            assert(t.last() == bytes@[i as int]);
            if i == 0 {
                assert(t.len() == 1);
                assert(t[0] == bytes@[0]);
                assert(decimal_list(bytes@.take(0)) =~= Seq::<char>::empty());
                assert(decimal_list(t) == d);
                assert(out@ =~= seq!['['] + decimal_list(t));
            } else {
                reveal_strlit(", ");
                assert(mid =~= before + seq![',', ' ']);
                assert(decimal_list(t) == decimal_list(t.drop_last()) + seq![',', ' '] + d);
                assert(out@ =~= seq!['['] + decimal_list(t));
            }
        }
        i += 1;
    }
    out.append("]");
    proof {
        assert(bytes@.take(n as int) =~= bytes@);
    }
    out
}

/// Compares two runs of bytes.
pub fn bytes_eq(a: &[u8], b: &[u8]) -> (r: bool)
    ensures
        r == (a@ == b@),
{
    if a.len() != b.len() {
        return false;
    }
    let mut i: usize = 0;
    while i < a.len()
        invariant
            a@.len() == b@.len(),
            i <= a@.len(),
            forall|j: int| 0 <= j < i ==> a@[j] == b@[j],
        decreases a@.len() - i,
    {
        if a[i] != b[i] {
            return false;
        }
        i += 1;
    }
    assert(a@ =~= b@);
    true
}

impl<'a> ByteStr<'a> {
    /// Wraps a slice of bytes.
    pub fn from_ref(slice: &'a [u8]) -> (r: ByteStr<'a>)
        ensures
            r@ == slice@,
    {
        ByteStr(slice)
    }

    /// Wraps a mutable slice of bytes.
    pub fn from_mut(slice: &'a mut [u8]) -> (r: ByteStrMut<'a>)
        ensures
            r.0@ == old(slice)@,
            final(slice)@ == final(r.0)@,
    {
        ByteStrMut(slice)
    }

    /// The bytes of a string slice.
    pub fn from_str(s: &'a str) -> (r: ByteStr<'a>)
        ensures
            r@ == s.spec_bytes(),
    {
        ByteStr(s.as_bytes())
    }

    /// The underlying slice.
    pub fn as_bytes(&self) -> (r: &'a [u8])
        ensures
            r@ == self@,
    {
        self.0
    }

    /// Number of bytes.
    pub fn len(&self) -> (r: usize)
        ensures
            r == self@.len(),
    {
        self.0.len()
    }

    /// True when there is no byte.
    pub fn is_empty(&self) -> (r: bool)
        ensures
            r == (self@.len() == 0),
    {
        self.0.len() == 0
    }

    /// The byte at `index`.
    pub fn byte_at(&self, index: usize) -> (r: u8)
        requires
            index < self@.len(),
        ensures
            r == self@[index as int],
    {
        self.0[index]
    }

    /// The bytes in `begin..end`, borrowed from the same storage.
    pub fn slice(&self, begin: usize, end: usize) -> (r: ByteStr<'a>)
        requires
            begin <= end <= self@.len(),
        ensures
            r@ == self@.subrange(begin as int, end as int),
    {
        ByteStr(vstd::slice::slice_subrange(self.0, begin, end))
    }

    /// True when both hold the same bytes.
    pub fn eq_bytes(&self, other: &[u8]) -> (r: bool)
        ensures
            r == (self@ == other@),
    {
        bytes_eq(self.0, other)
    }

    /// The bytes as they are shown: the text when they are valid UTF-8, else the list of bytes.
    pub fn debug_string(&self) -> (r: String)
        ensures
            r@ == byte_str_debug(self@),
    {
        match utf8_str(self.0) {
            Some(s) => String::from_str(s),
            None => bytes_debug(self.0),
        }
    }
}

impl<'a> PartialEq for ByteStr<'a> {
    fn eq(&self, other: &Self) -> (r: bool) {
        bytes_eq(self.0, other.0)
    }
}

impl<'a> vstd::std_specs::cmp::PartialEqSpecImpl for ByteStr<'a> {
    open spec fn obeys_eq_spec() -> bool {
        true
    }

    open spec fn eq_spec(&self, other: &Self) -> bool {
        self@ == other@
    }
}

impl<'a> core::ops::Deref for ByteStr<'a> {
    type Target = [u8];

    fn deref(&self) -> (r: &[u8])
        ensures
            r@ == self@,
    {
        self.0
    }
}

impl<'a> PartialEq<[u8]> for ByteStr<'a> {
    fn eq(&self, other: &[u8]) -> (r: bool) {
        bytes_eq(self.0, other)
    }
}

impl<'a> vstd::std_specs::cmp::PartialEqSpecImpl<[u8]> for ByteStr<'a> {
    open spec fn obeys_eq_spec() -> bool {
        true
    }

    open spec fn eq_spec(&self, other: &[u8]) -> bool {
        self@ == other@
    }
}

impl<'a> From<&'a [u8]> for ByteStr<'a> {
    fn from(value: &'a [u8]) -> (r: ByteStr<'a>) {
        ByteStr(value)
    }
}

impl<'a> vstd::std_specs::convert::FromSpecImpl<&'a [u8]> for ByteStr<'a> {
    open spec fn obeys_from_spec() -> bool {
        true
    }

    open spec fn from_spec(v: &'a [u8]) -> ByteStr<'a> {
        ByteStr(v)
    }
}

impl<'a> ByteStrMut<'a> {
    /// Overwrites the byte at `index`.
    pub fn set_byte(&mut self, index: usize, value: u8)
        requires
            index < old(self).0@.len(),
        ensures
            final(self).0@ == old(self).0@.update(index as int, value),
    {
        self.0[index] = value;
    }
}

} // verus!
