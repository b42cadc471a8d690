//! The row and its codec.
//!
//! A row is `{id, username, email}` with the strings held as byte arrays. On
//! disk a row occupies exactly [`ROW_SIZE`](crate::constant::ROW_SIZE) bytes:
//! the id as a little-endian `u32`, then each string zero-padded to its
//! region. Decoding trims trailing zero bytes, so a storable row must not end
//! a string in a zero byte; [`lemma_row_codec_round_trip`] shows that decoding
//! then recovers the row exactly.

use vstd::prelude::*;
use vstd::bytes::{spec_u32_from_le_bytes, spec_u32_to_le_bytes, u32_from_le_bytes, u32_to_le_bytes};
use vstd::slice::{slice_index_get, slice_subrange, slice_to_vec};
use crate::constant::{EMAIL_SIZE, ROW_SIZE, USERNAME_SIZE};

verus! {

/// Mathematical content of a row: the view of [`Row`].
#[verifier::ext_equal]
pub struct RowV {
    pub id: u32,
    pub username: Seq<u8>,
    pub email: Seq<u8>,
}

/// One table row: a 32-bit primary key and two byte strings.
#[derive(Debug, PartialEq, Eq)]
pub struct Row {
    pub id: u32,
    pub username: Vec<u8>,
    pub email: Vec<u8>,
}

impl View for Row {
    type V = RowV;

    open spec fn view(&self) -> RowV {
        RowV { id: self.id, username: self.username@, email: self.email@ }
    }
}

/// A stored string reads back as written only if the zero padding cannot
/// swallow its tail: it is empty or ends in a non-zero byte.
pub open spec fn stored_form(s: Seq<u8>) -> bool {
    s.len() == 0 || s.last() != 0
}

impl RowV {
    /// The row fits its fixed cell and survives the zero-padding codec.
    pub open spec fn valid(self) -> bool {
        &&& self.username.len() < USERNAME_SIZE
        &&& self.email.len() < EMAIL_SIZE
        &&& stored_form(self.username)
        &&& stored_form(self.email)
    }
}

impl Row {
    pub open spec fn valid(&self) -> bool {
        self@.valid()
    }
}

impl Clone for Row {
    fn clone(&self) -> (r: Self)
        ensures
            r@ == self@,
    {
        Row { id: self.id, username: copy_bytes(&self.username), email: copy_bytes(&self.email) }
    }
}

/// A fresh vector with the same bytes.
pub fn copy_bytes(v: &Vec<u8>) -> (r: Vec<u8>)
    ensures
        r@ == v@,
{
    slice_to_vec(v.as_slice())
}

/// `s` padded with zero bytes to length `n`.
pub open spec fn zero_pad(s: Seq<u8>, n: int) -> Seq<u8>
    recommends
        s.len() <= n,
{
    s + Seq::new((n - s.len()) as nat, |i: int| 0u8)
}

/// The longest prefix of `s` that does not end in a zero byte.
pub open spec fn trim_zeros(s: Seq<u8>) -> Seq<u8>
    decreases s.len(),
{
    if s.len() == 0 {
        s
    } else if s.last() == 0 {
        trim_zeros(s.drop_last())
    } else {
        s
    }
}

/// The byte image of a row: id, then the two zero-padded string regions.
pub open spec fn spec_serialize_row(r: RowV) -> Seq<u8> {
    spec_u32_to_le_bytes(r.id) + zero_pad(r.username, USERNAME_SIZE as int)
        + zero_pad(r.email, EMAIL_SIZE as int)
}

/// The row read from a `ROW_SIZE`-byte image: trailing zeros of each string
/// region are padding and are trimmed.
pub open spec fn spec_deserialize_row(b: Seq<u8>) -> RowV
    recommends
        b.len() == ROW_SIZE,
{
    RowV {
        id: spec_u32_from_le_bytes(b.subrange(0, 4)),
        username: trim_zeros(b.subrange(4, 36)),
        email: trim_zeros(b.subrange(36, 291)),
    }
}

/// Appends `field` and then zero bytes until `width` bytes were appended.
fn push_padded(b: &mut Vec<u8>, field: &Vec<u8>, width: usize)
    requires
        field@.len() <= width,
        old(b)@.len() + width <= usize::MAX,
    ensures
        final(b)@ == old(b)@ + zero_pad(field@, width as int),
{
    let base = b.len();
    let mut i: usize = 0;
    while i < field.len()
        invariant
            i <= field@.len() <= width,
            base == old(b)@.len(),
            base + width <= usize::MAX,
            b@ == old(b)@ + field@.take(i as int),
        decreases field@.len() - i,
    {
        b.push(field[i]);
        assert(b@ == old(b)@ + field@.take(i + 1));
        i = i + 1;
    }
    assert(field@.take(field@.len() as int) == field@);
    while i < width
        invariant
            field@.len() <= i <= width,
            base == old(b)@.len(),
            base + width <= usize::MAX,
            b@ == old(b)@ + field@ + Seq::new((i - field@.len()) as nat, |j: int| 0u8),
        decreases width - i,
    {
        b.push(0);
        assert(b@ == old(b)@ + field@ + Seq::new((i + 1 - field@.len()) as nat, |j: int| 0u8));
        i = i + 1;
    }
}

/// Writes the `ROW_SIZE`-byte image of a row.
pub fn serialize_row(source: &Row) -> (b: Vec<u8>)
    requires
        source.valid(),
    ensures
        b@ == spec_serialize_row(source@),
        b@.len() == ROW_SIZE,
{
    let mut b = u32_to_le_bytes(source.id);
    push_padded(&mut b, &source.username, USERNAME_SIZE);
    push_padded(&mut b, &source.email, EMAIL_SIZE);
    proof {
        vstd::bytes::lemma_auto_spec_u32_to_from_le_bytes();
        assert(b@ =~= spec_serialize_row(source@));
    }
    b
}

/// The prefix of `b` up to its last non-zero byte, as a fresh vector.
pub fn trim_trailing_zeros(b: &[u8]) -> (v: Vec<u8>)
    ensures
        v@ == trim_zeros(b@),
{
    let mut end = b.len();
    proof {
        assert(b@.take(b@.len() as int) =~= b@);
    }
    while end > 0 && *slice_index_get(b, end - 1) == 0
        invariant
            end <= b@.len(),
            trim_zeros(b@) == trim_zeros(b@.take(end as int)),
        decreases end,
    {
        proof {
            assert(b@.take(end as int).drop_last() =~= b@.take(end - 1));
        }
        end = end - 1;
    }
    proof {
        if end > 0 {
            assert(b@.take(end as int).last() == b@[end - 1]);
        }
        assert(trim_zeros(b@.take(end as int)) == b@.take(end as int));
    }
    slice_to_vec(slice_subrange(b, 0, end))
}

/// Reads the row stored in a `ROW_SIZE`-byte image.
pub fn deserialize_row(b: &[u8]) -> (r: Row)
    requires
        b@.len() == ROW_SIZE,
    ensures
        r@ == spec_deserialize_row(b@),
{
    let id = u32_from_le_bytes(slice_subrange(b, 0, 4));
    let username = trim_trailing_zeros(slice_subrange(b, 4, 36));
    let email = trim_trailing_zeros(slice_subrange(b, 36, 291));
    Row { id, username, email }
}

/// A valid row's image is exactly `ROW_SIZE` bytes.
pub proof fn lemma_serialize_row_len(r: RowV)
    requires
        r.valid(),
    ensures
        spec_serialize_row(r).len() == ROW_SIZE,
{
    vstd::bytes::lemma_auto_spec_u32_to_from_le_bytes();
}

/// Trimming never grows a string and leaves it in stored form.
pub proof fn lemma_trim_zeros_props(s: Seq<u8>)
    ensures
        trim_zeros(s).len() <= s.len(),
        stored_form(trim_zeros(s)),
        trim_zeros(s) == s.take(trim_zeros(s).len() as int),
    decreases s.len(),
{
    if s.len() == 0 {
        assert(trim_zeros(s) =~= s.take(0));
    } else if s.last() == 0 {
        lemma_trim_zeros_props(s.drop_last());
        assert(s.drop_last().take(trim_zeros(s.drop_last()).len() as int) =~= s.take(
            trim_zeros(s.drop_last()).len() as int,
        ));
    } else {
        assert(trim_zeros(s) =~= s.take(s.len() as int));
    }
}

/// Trimming a zero-padded stored-form string recovers it exactly.
pub proof fn lemma_trim_zero_pad(s: Seq<u8>, n: int)
    requires
        s.len() <= n,
        stored_form(s),
    ensures
        trim_zeros(zero_pad(s, n)) == s,
    decreases n - s.len(),
{
    if s.len() == n {
        assert(zero_pad(s, n) =~= s);
    } else {
        assert(zero_pad(s, n).last() == 0);
        assert(zero_pad(s, n).drop_last() =~= zero_pad(s, n - 1));
        lemma_trim_zero_pad(s, n - 1);
    }
}

/// The row codec round-trips: decoding an encoded valid row gives it back.
pub proof fn lemma_row_codec_round_trip(r: RowV)
    requires
        r.valid(),
    ensures
        spec_deserialize_row(spec_serialize_row(r)) == r,
{
    let b = spec_serialize_row(r);
    vstd::bytes::lemma_auto_spec_u32_to_from_le_bytes();
    assert(b.subrange(0, 4) =~= spec_u32_to_le_bytes(r.id));
    assert(b.subrange(4, 36) =~= zero_pad(r.username, USERNAME_SIZE as int));
    assert(b.subrange(36, 291) =~= zero_pad(r.email, EMAIL_SIZE as int));
    lemma_trim_zero_pad(r.username, USERNAME_SIZE as int);
    lemma_trim_zero_pad(r.email, EMAIL_SIZE as int);
    assert(spec_deserialize_row(b) =~= r);
}

} // verus!

verus! {

/// Whether the row fits the fixed cell and survives the zero-padding codec.
pub fn row_valid_check(r: &Row) -> (ok: bool)
    ensures
        ok == r@.valid(),
{
    r.username.len() < USERNAME_SIZE && r.email.len() < EMAIL_SIZE && (r.username.len() == 0
        || *r.username.last().unwrap() != 0) && (r.email.len() == 0 || *r.email.last().unwrap()
        != 0)
}

} // verus!
