//! Values that can be absorbed by a hasher, and the bytes that stand for them.

use crate::encoding::{
    le_bytes, lemma_le_bytes_injective, lemma_le_bytes_len, lemma_u64_below_radix_pow,
};
use crate::hasher::FastInsecureHasher;
use crate::prefix::{
    lemma_prefix_cancel, lemma_prefix_of_concat, lemma_prefix_same_len, lemma_prefix_transitive,
    lemma_prefixes_comparable,
};
use vstd::prelude::*;
use vstd::utf8::{encode_scalar, encode_utf8};

verus! {

/// A value that a [`FastInsecureHasher`] can absorb.
///
/// The bytes that stand for a value depend on the value alone: not on the
/// host, the process, or the state of the hasher. A composite value absorbs
/// its parts one after the other in a fixed order.
///
/// The bytes of a type are prefix-free: the bytes of one value never begin
/// the bytes of another, unless the two are the same bytes. A hasher keeps no
/// trace of where one value ended and the next began, and this is what lets
/// values be absorbed one after the other without being taken for others.
pub trait Hashable {
    /// The bytes that stand for this value.
    spec fn hash_bytes(&self) -> Seq<u8>;

    /// Feeds this value to `state`: appends `self.hash_bytes()` to what
    /// `state` has absorbed.
    fn hash_into(&self, state: &mut FastInsecureHasher)
        requires
            old(state).has_room(self.hash_bytes().len()),
        ensures
            final(state)@ == old(state)@ + self.hash_bytes(),
    ;

    /// The bytes of this value begin the bytes of `other` only where they are
    /// all of them.
    proof fn lemma_prefix_free(&self, other: &Self)
        requires
            self.hash_bytes().is_prefix_of(other.hash_bytes()),
        ensures
            self.hash_bytes() == other.hash_bytes(),
    ;
}

/// A byte stands for itself.
impl Hashable for u8 {
    open spec fn hash_bytes(&self) -> Seq<u8> {
        seq![*self]
    }

    fn hash_into(&self, state: &mut FastInsecureHasher) {
        state.write_u8(*self);
        assert(state@ =~= old(state)@ + self.hash_bytes());
    }

    proof fn lemma_prefix_free(&self, other: &Self) {
        lemma_prefix_same_len(self.hash_bytes(), other.hash_bytes());
    }
}

/// A `u64` is its eight bytes, least significant first.
impl Hashable for u64 {
    open spec fn hash_bytes(&self) -> Seq<u8> {
        le_bytes(*self as nat, 8)
    }

    fn hash_into(&self, state: &mut FastInsecureHasher) {
        proof {
            lemma_le_bytes_len(*self as nat, 8);
        }
        state.write_u64(*self);
    }

    proof fn lemma_prefix_free(&self, other: &Self) {
        lemma_le_bytes_len(*self as nat, 8);
        lemma_le_bytes_len(*other as nat, 8);
        lemma_prefix_same_len(self.hash_bytes(), other.hash_bytes());
    }
}

/// A `bool` is one byte: 1 for `true`, 0 for `false`.
impl Hashable for bool {
    open spec fn hash_bytes(&self) -> Seq<u8> {
        seq![if *self { 1u8 } else { 0u8 }]
    }

    fn hash_into(&self, state: &mut FastInsecureHasher) {
        let byte: u8 = if *self { 1 } else { 0 };
        state.write_u8(byte);
        assert(state@ =~= old(state)@ + self.hash_bytes());
    }

    proof fn lemma_prefix_free(&self, other: &Self) {
        lemma_prefix_same_len(self.hash_bytes(), other.hash_bytes());
    }
}

/// The byte that closes a text. No UTF-8 encoding holds it, so two texts
/// absorbed one after the other cannot be taken for one.
pub const TEXT_END: u8 = 0xff;

/// The bytes of a text: its UTF-8 encoding, closed by [`TEXT_END`].
pub open spec fn text_bytes(chars: Seq<char>) -> Seq<u8> {
    encode_utf8(chars).push(TEXT_END)
}

/// No byte of the UTF-8 encoding of one scalar value is [`TEXT_END`].
proof fn lemma_scalar_has_no_text_end(scalar: u32)
    ensures
        forall|i: int| 0 <= i < encode_scalar(scalar).len() ==> encode_scalar(scalar)[i] != TEXT_END,
{
    assert((scalar & 0x7F) as u8 != 0xff) by (bit_vector);
    assert(0xC0u8 | ((scalar >> 6) & 0x1F) as u8 != 0xff) by (bit_vector);
    assert(0xE0u8 | ((scalar >> 12) & 0x0F) as u8 != 0xff) by (bit_vector);
    assert(0xF0u8 | ((scalar >> 18) & 0x7) as u8 != 0xff) by (bit_vector);
    assert(0x80u8 | (scalar & 0x3F) as u8 != 0xff) by (bit_vector);
    assert(0x80u8 | ((scalar >> 6) & 0x3F) as u8 != 0xff) by (bit_vector);
    assert(0x80u8 | ((scalar >> 12) & 0x3F) as u8 != 0xff) by (bit_vector);
}

/// No byte of a UTF-8 encoding is [`TEXT_END`].
pub proof fn lemma_utf8_has_no_text_end(chars: Seq<char>, at: int)
    requires
        0 <= at < encode_utf8(chars).len(),
    ensures
        encode_utf8(chars)[at] != TEXT_END,
    decreases chars.len(),
{
    if chars.len() > 0 {
        let head = encode_scalar(chars[0] as u32);
        lemma_scalar_has_no_text_end(chars[0] as u32);
        if at >= head.len() {
            lemma_utf8_has_no_text_end(chars.drop_first(), at - head.len());
        }
    }
}

/// The bytes of texts are prefix-free.
pub proof fn lemma_text_bytes_prefix_free(short: Seq<char>, long: Seq<char>)
    requires
        text_bytes(short).is_prefix_of(text_bytes(long)),
    ensures
        text_bytes(short) == text_bytes(long),
{
    let inner = encode_utf8(short);
    let outer = encode_utf8(long);
    if inner.len() < outer.len() {
        let at = inner.len() as int;
        assert(text_bytes(short)[at] == TEXT_END);
        assert(text_bytes(short)[at] == text_bytes(long).subrange(
            0,
            text_bytes(short).len() as int,
        )[at]);
        assert(text_bytes(long)[at] == outer[at]);
        lemma_utf8_has_no_text_end(long, at);
    } else {
        lemma_prefix_same_len(text_bytes(short), text_bytes(long));
    }
}

/// Two texts with the same bytes are the same text.
pub proof fn lemma_text_bytes_injective(first: Seq<char>, second: Seq<char>)
    requires
        text_bytes(first) == text_bytes(second),
    ensures
        first == second,
{
    assert(text_bytes(first).drop_last() =~= encode_utf8(first));
    assert(text_bytes(second).drop_last() =~= encode_utf8(second));
    vstd::utf8::encode_utf8_decode_utf8(first);
    vstd::utf8::encode_utf8_decode_utf8(second);
}

/// A text is its UTF-8 encoding, closed by [`TEXT_END`].
impl Hashable for str {
    open spec fn hash_bytes(&self) -> Seq<u8> {
        text_bytes(self@)
    }

    fn hash_into(&self, state: &mut FastInsecureHasher) {
        state.write_str(self);
        state.write_u8(TEXT_END);
        assert(state@ =~= old(state)@ + self.hash_bytes());
    }

    proof fn lemma_prefix_free(&self, other: &Self) {
        lemma_text_bytes_prefix_free(self@, other@);
    }
}

/// An owned text is absorbed as the text it holds.
impl Hashable for String {
    open spec fn hash_bytes(&self) -> Seq<u8> {
        text_bytes(self@)
    }

    fn hash_into(&self, state: &mut FastInsecureHasher) {
        self.as_str().hash_into(state);
    }

    proof fn lemma_prefix_free(&self, other: &Self) {
        lemma_text_bytes_prefix_free(self@, other@);
    }
}

/// A reference is absorbed as the value behind it.
impl<T: Hashable + ?Sized> Hashable for &T {
    open spec fn hash_bytes(&self) -> Seq<u8> {
        (**self).hash_bytes()
    }

    fn hash_into(&self, state: &mut FastInsecureHasher) {
        (**self).hash_into(state);
    }

    proof fn lemma_prefix_free(&self, other: &Self) {
        (**self).lemma_prefix_free(&**other);
    }
}

/// The tag that opens an absent value.
pub const TAG_NONE: u64 = 0;

/// The tag that opens a present value.
pub const TAG_SOME: u64 = 1;

/// The two tags of an optional value have different bytes.
proof fn lemma_tags_differ()
    ensures
        le_bytes(TAG_NONE as nat, 8) != le_bytes(TAG_SOME as nat, 8),
        le_bytes(TAG_NONE as nat, 8).len() == 8,
        le_bytes(TAG_SOME as nat, 8).len() == 8,
{
    lemma_le_bytes_len(TAG_NONE as nat, 8);
    lemma_le_bytes_len(TAG_SOME as nat, 8);
    assert(le_bytes(TAG_NONE as nat, 8)[0] == 0u8);
    assert(le_bytes(TAG_SOME as nat, 8)[0] == 1u8);
}

/// An optional value is a tag, absorbed as a `u64`, followed by the value
/// where there is one.
impl<T: Hashable> Hashable for Option<T> {
    open spec fn hash_bytes(&self) -> Seq<u8> {
        match self {
            None => le_bytes(TAG_NONE as nat, 8),
            Some(value) => le_bytes(TAG_SOME as nat, 8) + value.hash_bytes(),
        }
    }

    fn hash_into(&self, state: &mut FastInsecureHasher) {
        match self {
            None => {
                proof {
                    lemma_le_bytes_len(TAG_NONE as nat, 8);
                }
                state.write_u64(TAG_NONE);
            },
            Some(value) => {
                proof {
                    lemma_le_bytes_len(TAG_SOME as nat, 8);
                }
                state.write_u64(TAG_SOME);
                value.hash_into(state);
                assert(state@ =~= old(state)@ + self.hash_bytes());
            },
        }
    }

    proof fn lemma_prefix_free(&self, other: &Self) {
        lemma_tags_differ();
        let none = le_bytes(TAG_NONE as nat, 8);
        let some = le_bytes(TAG_SOME as nat, 8);
        match (self, other) {
            (None, None) => {},
            (None, Some(there)) => {
                lemma_prefix_of_concat(some, there.hash_bytes());
                lemma_prefixes_comparable(none, some, other.hash_bytes());
                if none.is_prefix_of(some) {
                    lemma_prefix_same_len(none, some);
                } else {
                    lemma_prefix_same_len(some, none);
                }
            },
            (Some(here), None) => {
                lemma_prefix_of_concat(some, here.hash_bytes());
                lemma_prefix_transitive(some, self.hash_bytes(), none);
                lemma_prefix_same_len(some, none);
            },
            (Some(here), Some(there)) => {
                lemma_prefix_cancel(some, here.hash_bytes(), there.hash_bytes());
                here.lemma_prefix_free(there);
            },
        }
    }
}

/// Where one run of two values begins another run of two values of the same
/// types, the first values have the same bytes, and the bytes of the second
/// value of the one begin those of the other.
pub proof fn lemma_pair_splits<A: Hashable, B: Hashable>(
    first: &A,
    second: &B,
    other_first: &A,
    other_second: &B,
)
    requires
        (first.hash_bytes() + second.hash_bytes()).is_prefix_of(
            other_first.hash_bytes() + other_second.hash_bytes(),
        ),
    ensures
        first.hash_bytes() == other_first.hash_bytes(),
        second.hash_bytes().is_prefix_of(other_second.hash_bytes()),
{
    let whole = other_first.hash_bytes() + other_second.hash_bytes();
    lemma_prefix_of_concat(first.hash_bytes(), second.hash_bytes());
    lemma_prefix_transitive(
        first.hash_bytes(),
        first.hash_bytes() + second.hash_bytes(),
        whole,
    );
    lemma_prefix_of_concat(other_first.hash_bytes(), other_second.hash_bytes());
    lemma_prefixes_comparable(first.hash_bytes(), other_first.hash_bytes(), whole);
    if first.hash_bytes().is_prefix_of(other_first.hash_bytes()) {
        first.lemma_prefix_free(other_first);
    } else {
        other_first.lemma_prefix_free(first);
    }
    lemma_prefix_cancel(first.hash_bytes(), second.hash_bytes(), other_second.hash_bytes());
}

/// A pair is its first part followed by its second.
impl<A: Hashable, B: Hashable> Hashable for (A, B) {
    open spec fn hash_bytes(&self) -> Seq<u8> {
        self.0.hash_bytes() + self.1.hash_bytes()
    }

    fn hash_into(&self, state: &mut FastInsecureHasher) {
        self.0.hash_into(state);
        self.1.hash_into(state);
        assert(state@ =~= old(state)@ + self.hash_bytes());
    }

    proof fn lemma_prefix_free(&self, other: &Self) {
        lemma_pair_splits(&self.0, &self.1, &other.0, &other.1);
        self.1.lemma_prefix_free(&other.1);
    }
}

/// A triple is its three parts, in order.
impl<A: Hashable, B: Hashable, C: Hashable> Hashable for (A, B, C) {
    open spec fn hash_bytes(&self) -> Seq<u8> {
        self.0.hash_bytes() + self.1.hash_bytes() + self.2.hash_bytes()
    }

    fn hash_into(&self, state: &mut FastInsecureHasher) {
        self.0.hash_into(state);
        self.1.hash_into(state);
        self.2.hash_into(state);
        assert(state@ =~= old(state)@ + self.hash_bytes());
    }

    proof fn lemma_prefix_free(&self, other: &Self) {
        let head = (self.0, self.1);
        let other_head = (other.0, other.1);
        lemma_pair_splits(&head, &self.2, &other_head, &other.2);
        self.2.lemma_prefix_free(&other.2);
    }
}

/// The bytes of the items of a sequence, one item after the other.
pub open spec fn concat_bytes<T: Hashable>(items: Seq<T>) -> Seq<u8>
    decreases items.len(),
{
    if items.len() == 0 {
        Seq::empty()
    } else {
        concat_bytes(items.drop_last()) + items.last().hash_bytes()
    }
}

/// Taking one more item of a sequence appends that item's bytes.
pub proof fn lemma_concat_bytes_step<T: Hashable>(items: Seq<T>, count: int)
    requires
        0 <= count < items.len(),
    ensures
        concat_bytes(items.take(count + 1)) == concat_bytes(items.take(count))
            + items[count].hash_bytes(),
{
    let longer = items.take(count + 1);
    assert(longer.drop_last() =~= items.take(count));
    assert(longer.last() == items[count]);
}

/// The bytes of the first `count` items are no longer than the bytes of all
/// the items.
pub proof fn lemma_concat_bytes_prefix_len<T: Hashable>(items: Seq<T>, count: int)
    requires
        0 <= count <= items.len(),
    ensures
        concat_bytes(items.take(count)).len() <= concat_bytes(items).len(),
    decreases items.len() - count,
{
    if count == items.len() {
        assert(items.take(count) =~= items);
    } else {
        lemma_concat_bytes_step(items, count);
        lemma_concat_bytes_prefix_len(items, count + 1);
    }
}

/// The bytes of a sequence are those of its first item followed by those of
/// the rest.
pub proof fn lemma_concat_bytes_front<T: Hashable>(items: Seq<T>)
    requires
        items.len() > 0,
    ensures
        concat_bytes(items) == items[0].hash_bytes() + concat_bytes(items.drop_first()),
    decreases items.len(),
{
    if items.len() == 1 {
        assert(items.drop_last() =~= Seq::<T>::empty());
        assert(items.drop_first() =~= Seq::<T>::empty());
        assert(concat_bytes(items) =~= items[0].hash_bytes() + concat_bytes(items.drop_first()));
    } else {
        let shorter = items.drop_last();
        lemma_concat_bytes_front(shorter);
        assert(shorter.drop_first() =~= items.drop_first().drop_last());
        assert(items.drop_first().last() == items.last());
        assert(concat_bytes(items) =~= items[0].hash_bytes() + concat_bytes(items.drop_first()));
    }
}

/// Where the bytes of one sequence begin the bytes of another sequence of as
/// many items, the two have the same bytes.
pub proof fn lemma_concat_bytes_prefix_free<T: Hashable>(short: Seq<T>, long: Seq<T>)
    requires
        short.len() == long.len(),
        concat_bytes(short).is_prefix_of(concat_bytes(long)),
    ensures
        concat_bytes(short) == concat_bytes(long),
    decreases short.len(),
{
    if short.len() > 0 {
        lemma_concat_bytes_front(short);
        lemma_concat_bytes_front(long);
        let head = short[0].hash_bytes();
        let other_head = long[0].hash_bytes();
        let rest = concat_bytes(short.drop_first());
        let other_rest = concat_bytes(long.drop_first());
        lemma_prefix_of_concat(head, rest);
        lemma_prefix_transitive(head, head + rest, other_head + other_rest);
        lemma_prefix_of_concat(other_head, other_rest);
        lemma_prefixes_comparable(head, other_head, other_head + other_rest);
        if head.is_prefix_of(other_head) {
            short[0].lemma_prefix_free(&long[0]);
        } else {
            long[0].lemma_prefix_free(&short[0]);
        }
        lemma_prefix_cancel(head, rest, other_rest);
        lemma_concat_bytes_prefix_free(short.drop_first(), long.drop_first());
    }
}

/// The bytes of a run of items: the number of the items as a `u64`, then the
/// items in order.
pub open spec fn counted_bytes<T: Hashable>(items: Seq<T>) -> Seq<u8> {
    le_bytes(items.len(), 8) + concat_bytes(items)
}

/// The bytes of counted runs of no more than `u64::MAX` items are prefix-free.
pub proof fn lemma_counted_bytes_prefix_free<T: Hashable>(short: Seq<T>, long: Seq<T>)
    requires
        short.len() <= u64::MAX,
        long.len() <= u64::MAX,
        counted_bytes(short).is_prefix_of(counted_bytes(long)),
    ensures
        counted_bytes(short) == counted_bytes(long),
{
    let count = le_bytes(short.len(), 8);
    let other_count = le_bytes(long.len(), 8);
    lemma_le_bytes_len(short.len(), 8);
    lemma_le_bytes_len(long.len(), 8);
    lemma_prefix_of_concat(count, concat_bytes(short));
    lemma_prefix_transitive(count, counted_bytes(short), counted_bytes(long));
    lemma_prefix_of_concat(other_count, concat_bytes(long));
    lemma_prefixes_comparable(count, other_count, counted_bytes(long));
    if count.is_prefix_of(other_count) {
        lemma_prefix_same_len(count, other_count);
    } else {
        lemma_prefix_same_len(other_count, count);
    }
    lemma_u64_below_radix_pow(short.len() as u64);
    lemma_u64_below_radix_pow(long.len() as u64);
    lemma_le_bytes_injective(short.len(), long.len(), 8);
    lemma_prefix_cancel(count, concat_bytes(short), concat_bytes(long));
    lemma_concat_bytes_prefix_free(short, long);
}

/// A slice is the number of its items, absorbed as a `u64`, followed by the
/// items in order.
impl<T: Hashable> Hashable for [T] {
    open spec fn hash_bytes(&self) -> Seq<u8> {
        counted_bytes(self@)
    }

    fn hash_into(&self, state: &mut FastInsecureHasher) {
        let count = self.len();
        proof {
            lemma_le_bytes_len(count as nat, 8);
        }
        state.write_u64(count as u64);
        let mut done: usize = 0;
        while done < count
            invariant
                done <= count,
                count == self@.len(),
                state@ == old(state)@ + le_bytes(count as nat, 8) + concat_bytes(
                    self@.take(done as int),
                ),
                old(state)@.len() + 8 + concat_bytes(self@).len() <= u64::MAX,
            decreases count - done,
        {
            proof {
                lemma_le_bytes_len(count as nat, 8);
                lemma_concat_bytes_step(self@, done as int);
                lemma_concat_bytes_prefix_len(self@, done + 1);
            }
            self[done].hash_into(state);
            done += 1;
        }
        assert(self@.take(count as int) =~= self@);
    }

    proof fn lemma_prefix_free(&self, other: &Self) {
        vstd::slice::axiom_spec_len(self);
        vstd::slice::axiom_spec_len(other);
        lemma_counted_bytes_prefix_free(self@, other@);
    }
}

/// A vector is absorbed as the slice of its items.
impl<T: Hashable> Hashable for Vec<T> {
    open spec fn hash_bytes(&self) -> Seq<u8> {
        counted_bytes(self@)
    }

    fn hash_into(&self, state: &mut FastInsecureHasher) {
        self.as_slice().hash_into(state);
    }

    proof fn lemma_prefix_free(&self, other: &Self) {
        vstd::std_specs::vec::axiom_spec_len(self);
        vstd::std_specs::vec::axiom_spec_len(other);
        lemma_counted_bytes_prefix_free(self@, other@);
    }
}

} // verus!
