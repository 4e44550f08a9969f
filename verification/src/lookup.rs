//! A lookup from texts to the numbers that were filed under them.

use std::collections::HashMap;
use vstd::prelude::*;
use vstd::utf8::encode_utf8;

verus! {

broadcast use vstd::std_specs::hash::group_hash_axioms;

/// Where the hash of a run of bytes starts.
pub const HASH_OFFSET: u64 = 0xcbf2_9ce4_8422_2325;

/// What the hash is multiplied by for each byte.
pub const HASH_PRIME: u64 = 0x0000_0100_0000_01b3;

/// The hash of a run of bytes: each byte in turn is mixed into the low bits
/// and the whole multiplied, without regard to overflow.
pub open spec fn bytes_hash(bytes: Seq<u8>) -> u64
    decreases bytes.len(),
{
    if bytes.len() == 0 {
        HASH_OFFSET
    } else {
        (bytes_hash(bytes.drop_last()) ^ (bytes.last() as u64)).wrapping_mul(HASH_PRIME)
    }
}

/// The hash of a text: that of its bytes.
pub open spec fn text_hash(text: Seq<char>) -> u64 {
    bytes_hash(encode_utf8(text))
}

/// The hash of `text`.
pub fn hash_text(text: &str) -> (h: u64)
    ensures
        h == text_hash(text@),
{
    let bytes: &[u8] = text.as_bytes();
    let mut h: u64 = HASH_OFFSET;
    let mut i: usize = 0;
    while i < bytes.len()
        invariant
            i <= bytes.len(),
            h == bytes_hash(bytes@.take(i as int)),
        decreases bytes.len() - i,
    {
        assert(bytes@.take(i + 1).drop_last() =~= bytes@.take(i as int));
        h = (h ^ (bytes[i] as u64)).wrapping_mul(HASH_PRIME);
        i += 1;
    }
    assert(bytes@.take(bytes.len() as int) =~= bytes@);
    h
}

/// Numbers filed under texts. Looking a text up gives every number that
/// was filed under it, and maybe numbers of other texts with the same hash.
#[derive(Debug)]
pub struct TextIndex {
    buckets: HashMap<u64, Vec<usize>>,
}

impl TextIndex {
    /// The numbers filed under the texts of hash `h`, in the order of
    /// filing.
    pub closed spec fn bucket(&self, h: u64) -> Seq<usize> {
        if self.buckets@.contains_key(h) {
            self.buckets@[h]@
        } else {
            Seq::empty()
        }
    }

    /// What looking up `text` gives.
    pub open spec fn candidates(&self, text: Seq<char>) -> Seq<usize> {
        self.bucket(text_hash(text))
    }

    /// An index without numbers.
    pub fn new() -> (index: TextIndex)
        ensures
            forall|h: u64| #[trigger] index.bucket(h) == Seq::<usize>::empty(),
    {
        TextIndex { buckets: HashMap::new() }
    }

    /// The numbers filed under `text` and under texts of the same hash.
    pub fn get(&self, text: &str) -> (found: Option<&Vec<usize>>)
        ensures
            match found {
                Some(numbers) => numbers@ == self.candidates(text@),
                None => self.candidates(text@) == Seq::<usize>::empty(),
            },
    {
        let h: u64 = hash_text(text);
        self.buckets.get(&h)
    }

    /// Files `number` under `text`.
    pub fn add(&mut self, text: &str, number: usize)
        ensures
            final(self).candidates(text@) == old(self).candidates(text@).push(number),
            forall|h: u64| h != text_hash(text@) ==> #[trigger] final(self).bucket(h) == old(self).bucket(h),
    {
        let h: u64 = hash_text(text);
        let mut numbers: Vec<usize> = match self.buckets.remove(&h) {
            Some(numbers) => numbers,
            None => Vec::new(),
        };
        numbers.push(number);
        self.buckets.insert(h, numbers);
    }

    /// Files `number` in place of the number that stands at `slot` among
    /// those that looking up `text` gives.
    pub fn replace(&mut self, text: &str, slot: usize, number: usize)
        requires
            slot < old(self).candidates(text@).len(),
        ensures
            final(self).candidates(text@) == old(self).candidates(text@).update(slot as int, number),
            forall|h: u64| h != text_hash(text@) ==> #[trigger] final(self).bucket(h) == old(self).bucket(h),
    {
        let h: u64 = hash_text(text);
        match self.buckets.remove(&h) {
            Some(mut numbers) => {
                numbers.set(slot, number);
                self.buckets.insert(h, numbers);
            },
            None => {},
        }
    }
}

/// The plain values of a run of texts.
pub open spec fn text_views(texts: Seq<String>) -> Seq<Seq<char>> {
    texts.map_values(|s: String| s@)
}

/// A run of texts in which a text is found without going through all.
#[derive(Debug)]
pub struct TextTable {
    texts: Vec<String>,
    index: TextIndex,
}

impl View for TextTable {
    type V = Seq<Seq<char>>;

    closed spec fn view(&self) -> Seq<Seq<char>> {
        text_views(self.texts@)
    }
}

impl TextTable {
    /// Every text is filed with its position.
    pub closed spec fn wf(&self) -> bool {
        forall|i: int|
            0 <= i < self.texts.len() ==> self.index.candidates((#[trigger] self.texts[i])@).contains(
                i as usize,
            )
    }

    /// A table without texts.
    pub fn new() -> (table: TextTable)
        ensures
            table.wf(),
            table@ == Seq::<Seq<char>>::empty(),
    {
        let table = TextTable { texts: Vec::new(), index: TextIndex::new() };
        table
    }

    /// The number of texts.
    pub fn len(&self) -> (n: usize)
        ensures
            n == self@.len(),
    {
        self.texts.len()
    }

    /// Where `text` stands, if the table holds it.
    pub fn position(&self, text: &str) -> (r: Option<usize>)
        requires
            self.wf(),
        ensures
            match r {
                Some(p) => p < self@.len() && self@[p as int] == text@,
                None => !self@.contains(text@),
            },
    {
        let owned: String = text.to_owned();
        match self.index.get(text) {
            None => {
                assert(!self@.contains(text@));
                None
            },
            Some(numbers) => {
                let mut slot: usize = 0;
                while slot < numbers.len()
                    invariant
                        self.wf(),
                        owned@ == text@,
                        numbers@ == self.index.candidates(text@),
                        slot <= numbers.len(),
                        forall|t: int|
                            0 <= t < slot && numbers@[t] < self.texts.len() ==> self@[(
                            #[trigger] numbers@[t]) as int] != text@,
                    decreases numbers.len() - slot,
                {
                    let p: usize = numbers[slot];
                    if p < self.texts.len() && self.texts[p] == owned {
                        return Some(p);
                    }
                    slot += 1;
                }
                assert(!self@.contains(text@));
                None
            },
        }
    }

    /// Puts `text` at the end of the table.
    pub fn push(&mut self, text: &str)
        requires
            old(self).wf(),
        ensures
            final(self).wf(),
            final(self)@ == old(self)@.push(text@),
    {
        let ghost before = self.index;
        let ghost texts_before = self.texts@;
        let n: usize = self.texts.len();
        self.index.add(text, n);
        self.texts.push(text.to_owned());
        proof {
            assert forall|i: int| 0 <= i < self.texts.len() implies self.index.candidates(
                (#[trigger] self.texts[i])@,
            ).contains(i as usize) by {
                if i < n {
                    let old_numbers = before.candidates(texts_before[i]@);
                    let t = choose|t: int| 0 <= t < old_numbers.len() && old_numbers[t] == i as usize;
                    assert(self.index.candidates(texts_before[i]@)[t] == i as usize);
                } else {
                    let numbers = self.index.candidates(text@);
                    assert(numbers[numbers.len() - 1] == n);
                }
            }
        }
    }
}

} // verus!
