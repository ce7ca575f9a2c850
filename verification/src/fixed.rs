//! Text and byte buffers of fixed capacity, for builds without an
//! allocator: `arrayvec`'s `ArrayString<102>` stands for a string and
//! `ArrayVec<u8, 100>` for a byte vector, with the operations the library
//! needs of them.
use vstd::prelude::*;

use arrayvec::{ArrayString, ArrayVec, CapacityError};
use vstd::string::{StrSliceExecFns, StringSliceAdditionalSpecFns};
use vstd::utf8::{encode_scalar, encode_utf8, valid_utf8};

verus! {

#[verifier::external_type_specification]
#[verifier::external_body]
#[verifier::reject_recursive_types(T)]
pub struct ExArrayVec<T, const CAP: usize>(ArrayVec<T, CAP>);

#[verifier::external_type_specification]
#[verifier::external_body]
pub struct ExArrayString<const CAP: usize>(ArrayString<CAP>);

#[verifier::external_type_specification]
#[verifier::external_body]
#[verifier::reject_recursive_types(T)]
pub struct ExCapacityError<T>(CapacityError<T>);

/// The fixed-capacity string: at most 102 bytes of UTF-8.
pub type FixedString = ArrayString<102>;

/// The fixed-capacity byte vector: at most 100 bytes.
pub type FixedBytes = ArrayVec<u8, 100>;

/// The characters of a fixed-capacity string.
pub uninterp spec fn fixed_chars(s: FixedString) -> Seq<char>;

/// The bytes of a fixed-capacity byte vector.
pub uninterp spec fn fixed_bytes(v: FixedBytes) -> Seq<u8>;

/// The number of bytes of the UTF-8 encoding of `c`.
pub open spec fn char_width(c: char) -> nat {
    encode_scalar(c as u32).len()
}

/// The number of bytes of the UTF-8 encoding of `s`.
pub open spec fn text_width(s: Seq<char>) -> nat {
    encode_utf8(s).len()
}

/// `ArrayString::new`: an empty string.
#[verifier::external_body]
fn fs_new() -> (r: FixedString)
    ensures
        fixed_chars(r) == Seq::<char>::empty(),
{
    ArrayString::<102>::new()
}

/// `ArrayString::pop`: removes and returns the last character, `None` for
/// an empty string (which stays empty).
#[verifier::external_body]
fn fs_pop(s: &mut FixedString) -> (r: Option<char>)
    ensures
        fixed_chars(*old(s)).len() == 0 ==> r is None && fixed_chars(*final(s)) == fixed_chars(*old(s)),
        fixed_chars(*old(s)).len() > 0 ==> r == Some(fixed_chars(*old(s)).last()) && fixed_chars(*final(s))
            == fixed_chars(*old(s)).drop_last(),
{
    s.pop()
}

/// `ArrayString::try_push`: appends `c` when its encoding fits the remaining
/// capacity, and leaves the string unchanged with an error otherwise.
#[verifier::external_body]
fn fs_try_push(s: &mut FixedString, c: char) -> (r: Result<(), CapacityError<char>>)
    ensures
        text_width(fixed_chars(*old(s))) + char_width(c) <= 102 ==> r is Ok && fixed_chars(*final(s))
            == fixed_chars(*old(s)).push(c),
        text_width(fixed_chars(*old(s))) + char_width(c) > 102 ==> r is Err && fixed_chars(*final(s))
            == fixed_chars(*old(s)),
{
    s.try_push(c)
}

/// `ArrayString::try_push_str`: appends `t` when it fits the remaining
/// capacity, and leaves the string unchanged otherwise.
#[verifier::external_body]
fn fs_try_push_str<'a>(s: &mut FixedString, t: &'a str) -> (r: Result<(), CapacityError<&'a str>>)
    ensures
        text_width(fixed_chars(*old(s))) + t.spec_bytes().len() <= 102 ==> r is Ok && fixed_chars(*final(s))
            == fixed_chars(*old(s)) + t@,
        text_width(fixed_chars(*old(s))) + t.spec_bytes().len() > 102 ==> r is Err && fixed_chars(*final(s))
            == fixed_chars(*old(s)),
{
    s.try_push_str(t)
}

/// `ArrayString::len`: the number of bytes of the string's encoding, at
/// most its capacity.
#[verifier::external_body]
fn fs_len(s: &FixedString) -> (r: usize)
    ensures
        r == text_width(fixed_chars(*s)),
        r <= 102,
{
    s.len()
}

/// `ArrayString::as_str`: the text of the string.
#[verifier::external_body]
fn fs_as_str(s: &FixedString) -> (r: &str)
    ensures
        r@ == fixed_chars(*s),
{
    s.as_str()
}

/// `CapacityError::new`: the error carrying the element that did not fit.
#[verifier::external_body]
fn capacity_error(c: char) -> (r: CapacityError<char>) {
    CapacityError::new(c)
}

/// `core::str::from_utf8`: the text of `bytes` when they are valid UTF-8.
#[verifier::external_body]
fn utf8_text(bytes: &[u8]) -> (r: Option<&str>)
    ensures
        r is Some <==> valid_utf8(bytes@),
        r matches Some(t) ==> t.spec_bytes() == bytes@,
{
    core::str::from_utf8(bytes).ok()
}

/// `ArrayVec::new`: an empty vector.
#[verifier::external_body]
fn fv_new() -> (r: FixedBytes)
    ensures
        fixed_bytes(r) == Seq::<u8>::empty(),
{
    ArrayVec::<u8, 100>::new()
}

/// `ArrayVec::len`: the number of bytes.
#[verifier::external_body]
fn fv_len(v: &FixedBytes) -> (r: usize)
    ensures
        r == fixed_bytes(*v).len(),
{
    v.len()
}

/// `ArrayVec::try_push`: appends `x` when there is room, and leaves the
/// vector unchanged otherwise.
#[verifier::external_body]
fn fv_try_push(v: &mut FixedBytes, x: u8) -> (r: Result<(), CapacityError<u8>>)
    ensures
        fixed_bytes(*old(v)).len() < 100 ==> r is Ok && fixed_bytes(*final(v)) == fixed_bytes(*old(v)).push(x),
        fixed_bytes(*old(v)).len() >= 100 ==> r is Err && fixed_bytes(*final(v)) == fixed_bytes(*old(v)),
{
    v.try_push(x)
}

/// `ArrayVec::truncate`: keeps the first `n` bytes (all of them when there
/// are fewer).
#[verifier::external_body]
fn fv_truncate(v: &mut FixedBytes, n: usize)
    ensures
        fixed_bytes(*final(v)) == if n < fixed_bytes(*old(v)).len() {
            fixed_bytes(*old(v)).take(n as int)
        } else {
            fixed_bytes(*old(v))
        },
{
    v.truncate(n)
}

/// `ArrayVec::try_extend_from_slice`: appends `other` when it fits the
/// remaining capacity, and leaves the vector unchanged otherwise.
#[verifier::external_body]
fn fv_try_extend_from_slice(v: &mut FixedBytes, other: &[u8]) -> (r: Result<(), CapacityError>)
    ensures
        fixed_bytes(*old(v)).len() + other@.len() <= 100 ==> r is Ok && fixed_bytes(*final(v)) == fixed_bytes(
            *old(v),
        ) + other@,
        fixed_bytes(*old(v)).len() + other@.len() > 100 ==> r is Err && fixed_bytes(*final(v)) == fixed_bytes(
            *old(v),
        ),
{
    v.try_extend_from_slice(other)
}

/// The most bytes a fixed-capacity byte vector holds.
pub const MAX_CAPACITY: usize = 100;

/// The most bytes a fixed-capacity string holds.
pub const STRING_CAPACITY: usize = 102;

/// The encoding of joined texts is the joined encodings.
pub proof fn lemma_encode_append(a: Seq<char>, b: Seq<char>)
    ensures
        encode_utf8(a + b) == encode_utf8(a) + encode_utf8(b),
    decreases a.len(),
{
    if a.len() == 0 {
        assert(a + b =~= b);
        assert(encode_utf8(a) =~= Seq::<u8>::empty());
        assert(encode_utf8(a) + encode_utf8(b) =~= encode_utf8(b));
    } else {
        assert((a + b).drop_first() =~= a.drop_first() + b);
        assert((a + b)[0] == a[0]);
        lemma_encode_append(a.drop_first(), b);
        assert(encode_scalar(a[0] as u32) + (encode_utf8(a.drop_first()) + encode_utf8(b)) =~= (encode_scalar(
            a[0] as u32,
        ) + encode_utf8(a.drop_first())) + encode_utf8(b));
    }
}

/// One more character adds its width.
proof fn lemma_width_push(a: Seq<char>, c: char)
    ensures
        text_width(a.push(c)) == text_width(a) + char_width(c),
{
    assert(a.push(c) =~= a + seq![c]);
    lemma_encode_append(a, seq![c]);
    assert(seq![c].drop_first() =~= Seq::<char>::empty());
    assert(encode_utf8(seq![c].drop_first()) =~= Seq::<u8>::empty());
    assert(encode_utf8(seq![c]) =~= encode_scalar(c as u32));
}

/// A prefix is no wider than the whole.
proof fn lemma_width_prefix(a: Seq<char>, k: int)
    requires
        0 <= k <= a.len(),
    ensures
        text_width(a.take(k)) <= text_width(a),
{
    assert(a =~= a.take(k) + a.skip(k));
    lemma_encode_append(a.take(k), a.skip(k));
}

/// The number of bytes of the UTF-8 encoding of `c`.
fn width(c: char) -> (r: usize)
    ensures
        r == char_width(c),
        1 <= r <= 4,
{
    let v = c as u32;
    if v <= 0x7F {
        1
    } else if v <= 0x7FF {
        2
    } else if v <= 0xFFFF {
        3
    } else {
        4
    }
}

/// Inserts `c` before the character at `char_index` (at the end when there
/// are fewer characters); an error, leaving the string unchanged, when the
/// encoding of `c` does not fit the remaining capacity.
pub fn insert_char(string: &mut FixedString, char_index: usize, c: char) -> (r: Result<(), CapacityError<char>>)
    ensures
        ({
            let cs = fixed_chars(*old(string));
            let k = if char_index < cs.len() {
                char_index as int
            } else {
                cs.len() as int
            };
            &&& text_width(cs) + char_width(c) > 102 ==> r is Err && fixed_chars(*final(string)) == cs
            &&& text_width(cs) + char_width(c) <= 102 ==> r is Ok && fixed_chars(*final(string)) == cs.take(k)
                + seq![c] + cs.skip(k)
        }),
{
    let ghost cs = fixed_chars(*string);
    let char_len = width(c);
    let byte_len = fs_len(string);
    let n = fs_as_str(string).unicode_len();
    if char_len > 102 - byte_len {
        return Err(capacity_error(c));
    }
    let k = if char_index < n { char_index } else { n };
    // take the characters after the insertion point off the end
    let mut tail: Vec<char> = Vec::new();
    let mut count = n;
    while count > k
        invariant
            k <= count <= n,
            n == cs.len(),
            fixed_chars(*string) == cs.take(count as int),
            tail@.len() == n - count,
            forall|i: int| 0 <= i < tail@.len() ==> #[trigger] tail@[i] == cs[n - 1 - i],
        decreases count,
    {
        let ch = fs_pop(string).unwrap();
        assert(cs.take(count as int).drop_last() =~= cs.take(count - 1));
        tail.push(ch);
        count = count - 1;
    }
    proof {
        lemma_width_prefix(cs, k as int);
        lemma_width_push(cs.take(k as int), c);
    }
    let _ = fs_try_push(string, c);
    // put them back after the new character
    let ghost head = cs.take(k as int).push(c);
    assert(head + cs.subrange(k as int, k as int) =~= head);
    let mut m = k;
    while m < n
        invariant
            k <= m <= n,
            n == cs.len(),
            tail@.len() == n - k,
            forall|i: int| 0 <= i < tail@.len() ==> #[trigger] tail@[i] == cs[n - 1 - i],
            head == cs.take(k as int).push(c),
            fixed_chars(*string) == head + cs.subrange(k as int, m as int),
            text_width(cs) + char_width(c) <= 102,
        decreases n - m,
    {
        let ch = tail[n - 1 - m];
        proof {
            assert(ch == cs[m as int]);
            let cur = head + cs.subrange(k as int, m as int);
            // the text so far is the prefix up to `m` of the old text with
            // `c` inserted, so it is no wider than the old text plus `c`
            assert(cs.take(m + 1) =~= cs.take(k as int) + cs.subrange(k as int, m + 1));
            assert(cur.push(ch) =~= cs.take(k as int) + seq![c] + cs.subrange(k as int, m + 1));
            lemma_encode_append(cs.take(k as int), cs.subrange(k as int, m + 1));
            lemma_encode_append(cs.take(k as int) + seq![c], cs.subrange(k as int, m + 1));
            lemma_encode_append(cs.take(k as int), seq![c]);
            assert(encode_utf8(seq![c]).len() == char_width(c)) by {
                lemma_width_push(Seq::<char>::empty(), c);
                assert(Seq::<char>::empty().push(c) =~= seq![c]);
                assert(encode_utf8(Seq::<char>::empty()) =~= Seq::<u8>::empty());
            }
            lemma_width_prefix(cs, m + 1);
            assert(text_width(cur.push(ch)) <= 102);
            lemma_width_push(cur, ch);
        }
        let _ = fs_try_push(string, ch);
        proof {
            assert(head + cs.subrange(k as int, m + 1) =~= (head + cs.subrange(k as int, m as int)).push(ch));
        }
        m = m + 1;
    }
    assert(head + cs.subrange(k as int, n as int) =~= cs.take(k as int) + seq![c] + cs.skip(k as int));
    Ok(())
}

/// The string operations the library needs of a fixed-capacity string.
pub trait StringExt: Sized {
    /// The characters of the string.
    spec fn chars_of(&self) -> Seq<char>;

    /// The bytes of the string's UTF-8 encoding.
    fn into_bytes(&self) -> (r: FixedBytes)
        requires
            text_width(self.chars_of()) <= MAX_CAPACITY,
        ensures
            fixed_bytes(r) == encode_utf8(self.chars_of()),
    ;

    /// The string of the UTF-8 bytes `bytes`, `None` when they are not valid
    /// UTF-8.
    fn from_utf8(bytes: &[u8]) -> (r: Option<Self>)
        requires
            bytes@.len() <= STRING_CAPACITY,
        ensures
            (r is Some) == valid_utf8(bytes@),
            r matches Some(s) ==> encode_utf8(s.chars_of()) == bytes@,
    ;

    /// Appends the characters `chars`.
    fn extend(&mut self, chars: &[char])
        requires
            text_width(old(self).chars_of() + chars@) <= STRING_CAPACITY,
        ensures
            final(self).chars_of() == old(self).chars_of() + chars@,
    ;

    /// Inserts `c` before the character at `i` (at the end when there are
    /// fewer characters).
    fn insert(&mut self, i: usize, c: char)
        requires
            text_width(old(self).chars_of()) + char_width(c) <= STRING_CAPACITY,
        ensures
            ({
                let cs = old(self).chars_of();
                let k = if i < cs.len() {
                    i as int
                } else {
                    cs.len() as int
                };
                final(self).chars_of() == cs.take(k) + seq![c] + cs.skip(k)
            }),
    ;
}

impl StringExt for FixedString {
    open spec fn chars_of(&self) -> Seq<char> {
        fixed_chars(*self)
    }

    fn into_bytes(&self) -> (r: FixedBytes) {
        let mut v = fv_new();
        let _ = fv_try_extend_from_slice(&mut v, fs_as_str(self).as_bytes());
        v
    }

    fn from_utf8(bytes: &[u8]) -> (r: Option<Self>) {
        match utf8_text(bytes) {
            Some(t) => {
                let mut s = fs_new();
                let _ = fs_try_push_str(&mut s, t);
                proof {
                    assert(Seq::<char>::empty() + t@ =~= t@);
                    assert(encode_utf8(Seq::<char>::empty()) =~= Seq::<u8>::empty());
                }
                Some(s)
            },
            None => None,
        }
    }

    fn extend(&mut self, chars: &[char]) {
        let ghost start = fixed_chars(*self);
        let mut i: usize = 0;
        while i < chars.len()
            invariant
                i <= chars@.len(),
                fixed_chars(*self) == start + chars@.take(i as int),
                text_width(start + chars@) <= 102,
            decreases chars@.len() - i,
        {
            let ch = chars[i];
            proof {
                assert(start + chars@.take(i + 1) =~= (start + chars@.take(i as int)).push(ch));
                assert((start + chars@).take(start.len() + i + 1) =~= start + chars@.take(i + 1));
                lemma_width_prefix(start + chars@, start.len() + i + 1);
                lemma_width_push(start + chars@.take(i as int), ch);
            }
            let _ = fs_try_push(self, ch);
            i = i + 1;
        }
        assert(chars@.take(i as int) =~= chars@);
    }

    fn insert(&mut self, i: usize, c: char) {
        let _ = insert_char(self, i, c);
    }
}

/// The vector operations the library needs of a fixed-capacity vector.
pub trait VecExt<T>: Sized {
    /// The items of the vector.
    spec fn items(&self) -> Seq<T>;

    /// Grows the vector to `new_len` with copies of `value`, or shortens it
    /// to `new_len`.
    fn resize(&mut self, new_len: usize, value: T)
        requires
            new_len <= MAX_CAPACITY,
        ensures
            final(self).items() == if new_len > old(self).items().len() {
                old(self).items() + Seq::new((new_len - old(self).items().len()) as nat, |j: int| value)
            } else {
                old(self).items().take(new_len as int)
            },
    ;

    /// Appends the items of `other`.
    fn extend_from_slice(&mut self, other: &[T])
        requires
            old(self).items().len() + other@.len() <= MAX_CAPACITY,
        ensures
            final(self).items() == old(self).items() + other@,
    ;

    /// An empty vector, for a capacity within the fixed one.
    fn with_capacity(capacity: usize) -> (r: Self)
        requires
            capacity <= MAX_CAPACITY,
        ensures
            r.items() == Seq::<T>::empty(),
    ;

    /// The vector of the items of `slice`.
    fn from_slice(slice: &[T]) -> (r: Self)
        requires
            slice@.len() <= MAX_CAPACITY,
        ensures
            r.items() == slice@,
    ;
}

impl VecExt<u8> for FixedBytes {
    open spec fn items(&self) -> Seq<u8> {
        fixed_bytes(*self)
    }

    fn resize(&mut self, new_len: usize, value: u8) {
        let current_len = fv_len(self);
        if new_len > current_len {
            let ghost start = fixed_bytes(*self);
            let mut i = current_len;
            while i < new_len
                invariant
                    current_len <= i <= new_len,
                    new_len <= 100,
                    current_len == start.len(),
                    fixed_bytes(*self) == start + Seq::new((i - current_len) as nat, |j: int| value),
                decreases new_len - i,
            {
                let _ = fv_try_push(self, value);
                assert(start + Seq::new((i + 1 - current_len) as nat, |j: int| value) =~= (start + Seq::new(
                    (i - current_len) as nat,
                    |j: int| value,
                )).push(value));
                i = i + 1;
            }
        } else {
            fv_truncate(self, new_len);
        }
    }

    fn extend_from_slice(&mut self, other: &[u8]) {
        let _ = fv_try_extend_from_slice(self, other);
    }

    fn with_capacity(capacity: usize) -> (r: Self) {
        fv_new()
    }

    fn from_slice(slice: &[u8]) -> (r: Self) {
        let mut v = fv_new();
        v.extend_from_slice(slice);
        assert(Seq::<u8>::empty() + slice@ =~= slice@);
        v
    }
}

} // verus!
