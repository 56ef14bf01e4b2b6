//! An in-memory document archive: publish a document under a fresh id,
//! search for a word across every published document, retrieve a document by
//! id. Documents are byte strings; a document contains a word when the word
//! occurs as a whole whitespace-delimited token. The archive lives only for
//! the life of the process.

use vstd::prelude::*;

verus! {

/// ASCII whitespace, the token separator: space, tab, line feed, carriage
/// return.
pub open spec fn is_ws(b: u8) -> bool {
    b == 32 || b == 9 || b == 10 || b == 13
}

/// `w` occurs in `doc` starting at `i`, delimited by whitespace or an end of
/// the document on both sides.
pub open spec fn word_at(doc: Seq<u8>, w: Seq<u8>, i: int) -> bool {
    &&& 0 <= i
    &&& i + w.len() <= doc.len()
    &&& doc.subrange(i, i + w.len()) == w
    &&& (i == 0 || is_ws(doc[i - 1]))
    &&& (i + w.len() == doc.len() || is_ws(doc[i + w.len()]))
}

/// `doc` contains `w` as a whole token: `w` is a non-empty run of
/// non-whitespace bytes and occurs somewhere in `doc` with whitespace or a
/// document end on both sides.
pub open spec fn spec_contains_word(doc: Seq<u8>, w: Seq<u8>) -> bool {
    &&& w.len() > 0
    &&& (forall|k: int| 0 <= k < w.len() ==> !is_ws(w[k]))
    &&& exists|i: int| word_at(doc, w, i)
}

fn is_ws_byte(b: u8) -> (r: bool)
    ensures
        r == is_ws(b),
{
    b == 32 || b == 9 || b == 10 || b == 13
}

/// Whether `w` occurs in `doc` as a whole whitespace-delimited token.
pub fn doc_contains_word(doc: &Vec<u8>, w: &Vec<u8>) -> (r: bool)
    ensures
        r == spec_contains_word(doc@, w@),
{
    if w.len() == 0 {
        return false;
    }
    let mut k: usize = 0;
    while k < w.len()
        invariant
            k <= w@.len(),
            forall|t: int| 0 <= t < k ==> !is_ws(w@[t]),
        decreases w@.len() - k,
    {
        if is_ws_byte(w[k]) {
            return false;
        }
        k += 1;
    }
    if doc.len() < w.len() {
        assert(forall|i: int| !word_at(doc@, w@, i));
        return false;
    }
    let mut i: usize = 0;
    let mut found = false;
    while i <= doc.len() - w.len()
        invariant
            w@.len() > 0,
            w@.len() <= doc@.len(),
            i <= doc@.len() - w@.len() + 1,
            found == exists|p: int| p < i && word_at(doc@, w@, p),
        decreases doc@.len() - w@.len() + 1 - i,
    {
        let boundary_left = i == 0 || is_ws_byte(doc[i - 1]);
        let boundary_right = i + w.len() == doc.len() || is_ws_byte(doc[i + w.len()]);
        if boundary_left && boundary_right {
            let dlen: usize = doc.len();
            let mut t: usize = 0;
            let mut same = true;
            while t < w.len()
                invariant
                    t <= w@.len(),
                    dlen == doc@.len(),
                    i + w@.len() <= dlen,
                    same == forall|u: int| 0 <= u < t ==> doc@[i + u] == w@[u],
                decreases w@.len() - t,
            {
                if doc[i + t] != w[t] {
                    same = false;
                }
                t += 1;
            }
            if same {
                proof {
                    assert(doc@.subrange(i as int, i + w@.len()) =~= w@);
                    assert(word_at(doc@, w@, i as int));
                }
                found = true;
            }
        }
        i += 1;
    }
    proof {
        if !found {
            assert forall|p: int| !word_at(doc@, w@, p) by {
                if word_at(doc@, w@, p) {
                    assert(p < i);
                }
            }
        }
    }
    found
}

/// The ids (positions) of the documents in `docs` that contain `w`, in
/// ascending order.
pub open spec fn spec_search_ids(docs: Seq<Seq<u8>>, w: Seq<u8>) -> Seq<u64>
    decreases docs.len(),
{
    if docs.len() == 0 {
        Seq::empty()
    } else {
        spec_search_ids(docs.drop_last(), w) + if spec_contains_word(docs.last(), w) {
            seq![(docs.len() - 1) as u64]
        } else {
            Seq::<u64>::empty()
        }
    }
}

/// Search results are sound, complete and strictly ascending: they are
/// exactly the positions of the documents that contain the word, in order.
pub proof fn lemma_search_ids_exact(docs: Seq<Seq<u8>>, w: Seq<u8>)
    requires
        docs.len() <= u64::MAX,
    ensures
        forall|j: int|
            0 <= j < spec_search_ids(docs, w).len() ==> (#[trigger] spec_search_ids(docs, w)[j])
                < docs.len() && spec_contains_word(docs[spec_search_ids(docs, w)[j] as int], w),
        forall|i: int|
            0 <= i < docs.len() && spec_contains_word(#[trigger] docs[i], w) ==> spec_search_ids(
                docs,
                w,
            ).contains(i as u64),
        forall|a: int, b: int|
            0 <= a < b < spec_search_ids(docs, w).len() ==> spec_search_ids(docs, w)[a]
                < spec_search_ids(docs, w)[b],
    decreases docs.len(),
{
    if docs.len() > 0 {
        let prefix = docs.drop_last();
        lemma_search_ids_exact(prefix, w);
        let r0 = spec_search_ids(prefix, w);
        let r = spec_search_ids(docs, w);
        assert forall|i: int|
            0 <= i < docs.len() && spec_contains_word(#[trigger] docs[i], w) implies r.contains(
            i as u64,
        ) by {
            if i < docs.len() - 1 {
                assert(prefix[i] == docs[i]);
                let j = choose|j: int| 0 <= j < r0.len() && r0[j] == i as u64;
                assert(r[j] == i as u64);
            } else {
                assert(r[r.len() - 1] == (docs.len() - 1) as u64);
            }
        }
    }
}

/// The document store. Its mathematical value is the sequence of published
/// documents; a document's id is its position in that sequence.
pub struct Archive {
    docs: Vec<Vec<u8>>,
}

impl View for Archive {
    type V = Seq<Seq<u8>>;

    closed spec fn view(&self) -> Seq<Seq<u8>> {
        self.docs@.map_values(|d: Vec<u8>| d@)
    }
}

impl Archive {
    /// An archive holding no documents.
    pub fn new() -> (r: Self)
        ensures
            r@ == Seq::<Seq<u8>>::empty(),
    {
        let r = Archive { docs: Vec::new() };
        proof {
            assert(r@ =~= Seq::<Seq<u8>>::empty());
        }
        r
    }

    /// Stores `doc` under the next fresh id and returns that id.
    pub fn publish(&mut self, doc: Vec<u8>) -> (id: u64)
        ensures
            id == old(self)@.len(),
            final(self)@ == old(self)@.push(doc@),
    {
        let id = self.docs.len() as u64;
        self.docs.push(doc);
        proof {
            assert(self@ =~= old(self)@.push(doc@));
        }
        id
    }

    /// Returns the stored document with id `id`, or nothing when no document
    /// has that id.
    pub fn retrieve(&self, id: u64) -> (r: Option<Vec<u8>>)
        ensures
            match r {
                Some(d) => id < self@.len() && d@ == self@[id as int],
                None => id >= self@.len(),
            },
    {
        if id < self.docs.len() as u64 {
            let d = self.docs[id as usize].clone();
            proof {
                assert(d@ == self@[id as int]);
            }
            Some(d)
        } else {
            None
        }
    }

    /// Returns the ids of every stored document that contains `word`, in
    /// ascending order.
    pub fn search(&self, word: &Vec<u8>) -> (r: Vec<u64>)
        ensures
            r@ == spec_search_ids(self@, word@),
    {
        let mut r: Vec<u64> = Vec::new();
        let mut i: usize = 0;
        while i < self.docs.len()
            invariant
                i <= self@.len(),
                self@.len() == self.docs@.len(),
                r@ == spec_search_ids(self@.take(i as int), word@),
            decreases self@.len() - i,
        {
            if doc_contains_word(&self.docs[i], word) {
                r.push(i as u64);
            }
            i += 1;
            proof {
                assert(self@.take(i as int).drop_last() =~= self@.take(i as int - 1));
                assert(self@.take(i as int).last() == self@[i as int - 1]);
            }
        }
        proof {
            assert(self@.take(self@.len() as int) =~= self@);
        }
        r
    }
}

} // verus!
