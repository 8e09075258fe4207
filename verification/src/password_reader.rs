//! The dictionary candidate stream.
//!
//! A dictionary is a byte buffer of lines separated by LF or CRLF; the
//! final line need not end with LF. One candidate per line, in file order;
//! a line whose content is empty after stripping is still a candidate.

use vstd::prelude::*;

use crate::text::bytes_to_string;
use crate::text::lossy_utf8;

verus! {

/// The LF byte that separates lines.
pub open spec fn lf() -> u8 {
    10
}

/// The CR byte that may precede a separator.
pub open spec fn cr() -> u8 {
    13
}

/// The index of the first LF in `data`, or `-1` when there is none.
pub open spec fn first_lf(data: Seq<u8>) -> int
    decreases data.len(),
{
    if data.len() == 0 {
        -1
    } else if data[0] == lf() {
        0
    } else {
        let r = first_lf(data.drop_first());
        if r < 0 {
            -1
        } else {
            r + 1
        }
    }
}

/// Strips one trailing CR, if present.
pub open spec fn strip_cr(s: Seq<u8>) -> Seq<u8> {
    if s.len() > 0 && s.last() == cr() {
        s.drop_last()
    } else {
        s
    }
}

/// The candidates a dictionary buffer holds: its lines in order, each
/// terminated line stripped of the LF and one optional preceding CR; a
/// final unterminated line is taken as it stands.
pub open spec fn dict_candidates(data: Seq<u8>) -> Seq<Seq<u8>>
    decreases data.len(),
{
    if data.len() == 0 {
        Seq::empty()
    } else {
        let i = first_lf(data);
        if 0 <= i < data.len() {
            seq![strip_cr(data.take(i))] + dict_candidates(data.skip(i + 1))
        } else {
            seq![data]
        }
    }
}

/// What `first_lf` finds is the first LF: in bounds, an LF, with none
/// before it; and `-1` means the buffer holds no LF at all.
pub proof fn lemma_first_lf(data: Seq<u8>)
    ensures
        first_lf(data) >= 0 ==> {
            &&& first_lf(data) < data.len()
            &&& data[first_lf(data)] == lf()
            &&& forall|k: int| 0 <= k < first_lf(data) ==> data[k] != lf()
        },
        first_lf(data) < 0 ==> forall|k: int| 0 <= k < data.len() ==> data[k] != lf(),
    decreases data.len(),
{
    if data.len() > 0 && data[0] != lf() {
        lemma_first_lf(data.drop_first());
        let r = first_lf(data.drop_first());
        if r >= 0 {
            assert forall|k: int| 0 <= k < r + 1 implies data[k] != lf() by {
                if k > 0 {
                    assert(data.drop_first()[k - 1] != lf());
                }
            }
        } else {
            assert forall|k: int| 0 <= k < data.len() implies data[k] != lf() by {
                if k > 0 {
                    assert(data.drop_first()[k - 1] != lf());
                }
            }
        }
    }
}

/// Conversely, a position that is an LF with none before it is what
/// `first_lf` finds.
pub proof fn lemma_first_lf_is(data: Seq<u8>, r: int)
    requires
        0 <= r < data.len(),
        data[r] == lf(),
        forall|k: int| 0 <= k < r ==> data[k] != lf(),
    ensures
        first_lf(data) == r,
    decreases data.len(),
{
    if r > 0 {
        assert forall|k: int| 0 <= k < r - 1 implies data.drop_first()[k] != lf() by {
            assert(data.drop_first()[k] == data[k + 1]);
        }
        assert(data.drop_first()[r - 1] == lf());
        lemma_first_lf_is(data.drop_first(), r - 1);
    }
}

/// A buffer with no LF at all has none to find.
pub proof fn lemma_first_lf_none(data: Seq<u8>)
    requires
        forall|k: int| 0 <= k < data.len() ==> data[k] != lf(),
    ensures
        first_lf(data) < 0,
    decreases data.len(),
{
    if data.len() > 0 {
        assert forall|k: int| 0 <= k < data.drop_first().len() implies data.drop_first()[k]
            != lf() by {
            assert(data.drop_first()[k] == data[k + 1]);
        }
        lemma_first_lf_none(data.drop_first());
    }
}

/// A dictionary never holds more candidates than bytes.
pub proof fn lemma_dict_candidates_le_len(data: Seq<u8>)
    ensures
        dict_candidates(data).len() <= data.len(),
    decreases data.len(),
{
    if data.len() > 0 {
        let i = first_lf(data);
        lemma_first_lf(data);
        if i >= 0 {
            lemma_dict_candidates_le_len(data.skip(i + 1));
        }
    }
}

/// A sequence of lines written out with LF separators, each line
/// terminated.
pub open spec fn join_lines(lines: Seq<Seq<u8>>) -> Seq<u8>
    decreases lines.len(),
{
    if lines.len() == 0 {
        Seq::empty()
    } else {
        lines[0] + seq![lf()] + join_lines(lines.drop_first())
    }
}

/// Dictionary round trip: writing non-empty, LF-free lines (not ending in
/// CR) with LF separators and reading them back yields exactly the
/// written lines, in order - and therefore also the written line count.
pub proof fn lemma_dictionary_round_trip(lines: Seq<Seq<u8>>)
    requires
        forall|i: int| 0 <= i < lines.len() ==> lines[i].len() > 0,
        forall|i: int, j: int|
            0 <= i < lines.len() && 0 <= j < lines[i].len() ==> lines[i][j] != lf(),
        forall|i: int| 0 <= i < lines.len() ==> lines[i].last() != cr(),
    ensures
        dict_candidates(join_lines(lines)) == lines,
    decreases lines.len(),
{
    if lines.len() == 0 {
        assert(dict_candidates(join_lines(lines)) =~= lines);
    } else {
        let l0 = lines[0];
        let rest = lines.drop_first();
        let data = join_lines(lines);
        assert(data == l0 + seq![lf()] + join_lines(rest));
        assert(data.len() == l0.len() + 1 + join_lines(rest).len());
        assert forall|k: int| 0 <= k < l0.len() implies data[k] != lf() by {
            assert(data[k] == l0[k]);
        }
        assert(data[l0.len() as int] == lf());
        lemma_first_lf_is(data, l0.len() as int);
        assert(data.take(l0.len() as int) =~= l0);
        assert(strip_cr(l0) == l0);
        assert(data.skip(l0.len() as int + 1) =~= join_lines(rest));
        assert forall|i: int| 0 <= i < rest.len() implies rest[i].len() > 0 && rest[i].last()
            != cr() by {
            assert(rest[i] == lines[i + 1]);
        }
        assert forall|i: int, j: int|
            0 <= i < rest.len() && 0 <= j < rest[i].len() implies rest[i][j] != lf() by {
            assert(rest[i] == lines[i + 1]);
        }
        lemma_dictionary_round_trip(rest);
        assert(dict_candidates(data) == seq![strip_cr(data.take(l0.len() as int))]
            + dict_candidates(data.skip(l0.len() as int + 1)));
        assert(dict_candidates(join_lines(lines)) =~= lines);
    }
}

/// The lazy dictionary stream: hands out the candidates of a byte buffer
/// one line at a time.
pub struct PasswordReader {
    data: Vec<u8>,
    pos: usize,
    emitted: usize,
}

impl PasswordReader {
    /// The whole buffer the stream walks.
    pub closed spec fn spec_data(&self) -> Seq<u8> {
        self.data@
    }

    /// How many candidates were already handed out.
    pub closed spec fn spec_emitted(&self) -> nat {
        self.emitted as nat
    }

    /// The stream invariant: the unread tail of the buffer holds exactly
    /// the candidates not yet emitted.
    pub closed spec fn wf(&self) -> bool {
        &&& self.pos <= self.data@.len()
        &&& self.emitted <= dict_candidates(self.data@).len()
        &&& dict_candidates(self.data@.skip(self.pos as int)) =~= dict_candidates(
            self.data@,
        ).skip(self.emitted as int)
        &&& (self.pos < self.data@.len() ==> self.emitted < dict_candidates(self.data@).len())
    }

    /// Opens a dictionary over the bytes of a word-list file.
    pub fn new(data: Vec<u8>) -> (r: Self)
        ensures
            r.wf(),
            r.spec_data() == data@,
            r.spec_emitted() == 0,
    {
        proof {
            assert(data@.skip(0) =~= data@);
            assert(dict_candidates(data@).skip(0) =~= dict_candidates(data@));
            if data@.len() > 0 {
                assert(dict_candidates(data@).len() > 0);
            }
        }
        PasswordReader { data, pos: 0, emitted: 0 }
    }

    /// Bounds that every well-formed stream obeys.
    pub proof fn lemma_bounds(&self)
        requires
            self.wf(),
        ensures
            self.spec_emitted() <= dict_candidates(self.spec_data()).len(),
            self.spec_data().len() <= usize::MAX,
    {
        vstd::std_specs::vec::axiom_spec_len(&self.data);
    }

    /// How many candidates were already emitted, as a runtime value.
    pub fn emitted_count(&self) -> (r: usize)
        ensures
            r as nat == self.spec_emitted(),
    {
        self.emitted
    }

    /// Emits the next candidate line, or nothing at the end of the buffer.
    ///
    /// The `k`-th emitted string is the `k`-th line of the buffer, decoded
    /// from its bytes after CRLF stripping.
    pub fn next(&mut self) -> (r: Option<String>)
        requires
            old(self).wf(),
        ensures
            final(self).wf(),
            final(self).spec_data() == old(self).spec_data(),
            old(self).spec_emitted() < dict_candidates(old(self).spec_data()).len() ==> {
                &&& final(self).spec_emitted() == old(self).spec_emitted() + 1
                &&& r matches Some(s) && s@ == lossy_utf8(
                    dict_candidates(old(self).spec_data())[old(self).spec_emitted() as int],
                )
            },
            old(self).spec_emitted() >= dict_candidates(old(self).spec_data()).len() ==> r
                is None && *final(self) == *old(self),
    {
        let ghost all = self.data@;
        let ghost tail = self.data@.skip(self.pos as int);
        if self.pos >= self.data.len() {
            proof {
                assert(tail =~= Seq::<u8>::empty());
                assert(dict_candidates(all).skip(self.emitted as int) =~= Seq::<Seq<
                    u8,
                >>::empty());
                lemma_dict_candidates_le_len(all);
            }
            return None;
        }
        let start = self.pos;
        let len = self.data.len();
        let mut j = start;
        while j < len && self.data[j] != 10
            invariant
                start <= j <= len,
                len == self.data@.len(),
                self.data@ == all,
                self.pos == start,
                forall|k: int| start <= k < j ==> all[k] != 10,
            decreases len - j,
        {
            j = j + 1;
        }
        // j is the end of the line content; with an LF found, strip one CR
        let content_end = if j < len {
            if j > start && self.data[j - 1] == 13 {
                j - 1
            } else {
                j
            }
        } else {
            j
        };
        let mut line: Vec<u8> = Vec::new();
        let mut t = start;
        while t < content_end
            invariant
                start <= t <= content_end <= len,
                len == self.data@.len(),
                self.data@ == all,
                line@.len() == t - start,
                forall|k: int| 0 <= k < line@.len() ==> line@[k] == all[start + k],
            decreases content_end - t,
        {
            let b = self.data[t];
            line.push(b);
            t = t + 1;
        }
        let s = bytes_to_string(&line);
        proof {
            lemma_dict_candidates_le_len(all);
            let tl = tail;
            assert(tl.len() > 0);
            if j < len {
                // a terminated line: first_lf of the tail sits at j - start
                assert forall|k: int| 0 <= k < j - start implies tl[k] != lf() by {
                    assert(tl[k] == all[start + k]);
                }
                assert(tl[j - start] == all[j as int]);
                lemma_first_lf_is(tl, j - start);
                assert(dict_candidates(tl) == seq![strip_cr(tl.take(j - start))]
                    + dict_candidates(tl.skip(j - start + 1)));
                assert(tl.take(j - start) =~= all.subrange(start as int, j as int));
                assert(strip_cr(tl.take(j - start)) =~= line@);
                assert(tl.skip(j - start + 1) =~= all.skip(j + 1));
            } else {
                // the unterminated final line
                assert forall|k: int| 0 <= k < tl.len() implies tl[k] != lf() by {
                    assert(tl[k] == all[start + k]);
                }
                lemma_first_lf_none(tl);
                assert(dict_candidates(tl) == seq![tl]);
                assert(tl =~= line@);
                assert(all.skip(len as int) =~= Seq::<u8>::empty());
            }
            assert(dict_candidates(tl)[0] == line@);
            assert(dict_candidates(all)[self.emitted as int] == line@);
        }
        if j < len {
            self.pos = j + 1;
        } else {
            self.pos = len;
        }
        proof {
            let newtail = all.skip(self.pos as int);
            lemma_first_lf(tail);
            assert(dict_candidates(tail) == seq![line@] + dict_candidates(newtail));
            assert(dict_candidates(tail) =~= dict_candidates(all).skip(self.emitted as int));
            assert(dict_candidates(tail).len() == dict_candidates(all).len() - self.emitted);
            assert forall|k: int| 0 <= k < dict_candidates(newtail).len() implies
                dict_candidates(newtail)[k] == dict_candidates(all).skip(self.emitted + 1)[k] by {
                assert(dict_candidates(newtail)[k] == dict_candidates(tail)[k + 1]);
                assert(dict_candidates(tail)[k + 1] == dict_candidates(all).skip(
                    self.emitted as int)[k + 1]);
            }
            assert(dict_candidates(newtail) =~= dict_candidates(all).skip(self.emitted + 1));
            if self.pos < all.len() {
                assert(all.skip(self.pos as int).len() > 0);
                assert(dict_candidates(newtail).len() > 0);
            }
        }
        self.emitted = self.emitted + 1;
        Some(s)
    }
}

/// Counts the candidates of a dictionary buffer: the number of LF bytes,
/// plus one when the buffer is non-empty and does not end with LF.
pub fn password_reader_count(data: &Vec<u8>) -> (r: usize)
    ensures
        r as nat == dict_candidates(data@).len(),
{
    let len = data.len();
    let ghost all = data@;
    let mut count: usize = 0;
    let mut pos: usize = 0;
    proof {
        assert(all.skip(0) =~= all);
    }
    // walk the buffer line by line, as the stream would
    while pos < len
        invariant
            pos <= len,
            len == data@.len(),
            all == data@,
            count as nat + dict_candidates(all.skip(pos as int)).len() == dict_candidates(
                all,
            ).len(),
            count as nat <= pos,
        decreases len - pos,
    {
        let start = pos;
        let mut j = start;
        while j < len && data[j] != 10
            invariant
                start <= j <= len,
                len == data@.len(),
                all == data@,
                forall|k: int| start <= k < j ==> all[k] != 10,
            decreases len - j,
        {
            j = j + 1;
        }
        let ghost tl = all.skip(start as int);
        proof {
            assert(tl.len() > 0);
            if j < len {
                assert forall|k: int| 0 <= k < j - start implies tl[k] != lf() by {
                    assert(tl[k] == all[start + k]);
                }
                assert(tl[j - start] == all[j as int]);
                lemma_first_lf_is(tl, j - start);
                assert(dict_candidates(tl) == seq![strip_cr(tl.take(j - start))]
                    + dict_candidates(tl.skip(j - start + 1)));
                assert(tl.skip(j - start + 1) =~= all.skip(j + 1));
            } else {
                assert forall|k: int| 0 <= k < tl.len() implies tl[k] != lf() by {
                    assert(tl[k] == all[start + k]);
                }
                lemma_first_lf_none(tl);
                assert(dict_candidates(tl) == seq![tl]);
                assert(all.skip(len as int) =~= Seq::<u8>::empty());
            }
        }
        if j < len {
            pos = j + 1;
        } else {
            pos = len;
        }
        proof {
            assert(dict_candidates(tl).len() == 1 + dict_candidates(all.skip(pos as int)).len());
        }
        count = count + 1;
    }
    proof {
        assert(all.skip(len as int) =~= Seq::<u8>::empty());
        assert(dict_candidates(all.skip(pos as int)).len() == 0);
    }
    count
}

} // verus!
