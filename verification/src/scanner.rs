//! Counting one file's content as its bytes arrive, piece by piece.

use crate::decoding::{
    awaits_more, broken, decode_scalar, leading_width, lemma_ascii_decodes_bytewise,
    lemma_broken_stays, lemma_decode_append, lemma_single_scalar, lemma_valid_iff_read_whole,
    lemma_valid_up_to_append, lemma_valid_up_to_is_valid, undecodable, valid_up_to,
};
use crate::metrics::{outcome_view, Metrics, MetricsView, ScanError, ScanErrorView};
use crate::text::{
    code_is_whitespace, ends_in_word, lemma_counts_bounded, line_count, line_width,
    max_line_width, word_count, TAB_WIDTH,
};
use vstd::prelude::*;
use vstd::utf8::*;

verus! {

/// The counts of the characters `cs`, which were read from `nbytes` bytes
/// of the file `filename`.
pub open spec fn measure(filename: Seq<char>, nbytes: nat, cs: Seq<char>) -> MetricsView {
    MetricsView {
        bytes: nbytes,
        chars: cs.len(),
        lines: line_count(cs),
        words: word_count(cs),
        max_line_length: max_line_width(cs),
        filename,
    }
}

/// What counting the file `filename` gives when its content is `bytes`:
/// the counts of the text that `bytes` encode, or, where `bytes` are not
/// UTF-8, the offset at which reading them stops.
pub open spec fn scan_outcome(filename: Seq<char>, bytes: Seq<u8>) -> Result<
    MetricsView,
    ScanErrorView,
> {
    if valid_utf8(bytes) {
        Ok(measure(filename, bytes.len(), decode_utf8(bytes)))
    } else {
        Err(ScanErrorView::InvalidEncoding { path: filename, offset: valid_up_to(bytes) })
    }
}

/// The most bytes that one scanner takes, so that a line made of tabs
/// alone still has a width that fits.
pub open spec fn capacity() -> nat {
    (usize::MAX / TAB_WIDTH) as nat
}

/// The counts of a file of which a part has been read. The content is
/// handed over in pieces of any size, cut at any place; a scalar that a cut
/// divides is kept until its remaining bytes arrive.
pub struct Scanner {
    filename: String,
    seen: usize,
    bytes: usize,
    chars: usize,
    lines: usize,
    words: usize,
    max_line_length: usize,
    line_length: usize,
    in_word: bool,
    pending: Vec<u8>,
    failed: bool,
    fed: Ghost<Seq<u8>>,
}

impl Scanner {
    /// All the bytes handed over so far, in order.
    pub closed spec fn fed(&self) -> Seq<u8> {
        self.fed@
    }

    /// The name of the file that is counted.
    pub closed spec fn filename(&self) -> Seq<char> {
        self.filename@
    }

    /// The counters hold what the bytes handed over so far amount to.
    pub closed spec fn wf(&self) -> bool {
        let fed = self.fed@;
        let done = valid_up_to(fed) as int;
        let cs = decode_utf8(fed.subrange(0, done));
        let tail = fed.skip(done);
        &&& fed.len() <= capacity()
        &&& self.seen == fed.len()
        &&& self.bytes == done
        &&& self.chars == cs.len()
        &&& self.chars <= self.bytes
        &&& self.lines == line_count(cs)
        &&& self.words == word_count(cs)
        &&& self.max_line_length == max_line_width(cs)
        &&& self.line_length == line_width(cs)
        &&& self.in_word == ends_in_word(cs)
        &&& if self.failed {
            broken(tail)
        } else {
            self.pending@ == tail && awaits_more(tail)
        }
    }

    /// The number of bytes that can still be handed over.
    pub open spec fn spec_room(&self) -> nat {
        (capacity() - self.fed().len()) as nat
    }

    /// A scanner for the file `filename`, before any of its content.
    pub fn new(filename: &str) -> (s: Scanner)
        ensures
            s.wf(),
            s.fed() == Seq::<u8>::empty(),
            s.filename() == filename@,
    {
        let s = Scanner {
            filename: filename.to_owned(),
            seen: 0,
            bytes: 0,
            chars: 0,
            lines: 0,
            words: 0,
            max_line_length: 0,
            line_length: 0,
            in_word: false,
            pending: Vec::new(),
            failed: false,
            fed: Ghost(Seq::empty()),
        };
        proof {
            let fed = Seq::<u8>::empty();
            assert(fed.subrange(0, 0) =~= fed);
            assert(fed.skip(0) =~= fed);
        }
        s
    }

    /// The number of bytes that can still be handed over.
    pub fn room(&self) -> (n: usize)
        requires
            self.wf(),
        ensures
            n == self.spec_room(),
    {
        usize::MAX / TAB_WIDTH - self.seen
    }

    fn push_byte(&mut self, byte: u8)
        requires
            old(self).wf(),
            old(self).fed().len() < capacity(),
        ensures
            final(self).wf(),
            final(self).fed() == old(self).fed().push(byte),
            final(self).filename() == old(self).filename(),
    {
        let ghost fed = self.fed@;
        let ghost done = valid_up_to(fed) as int;
        let ghost head = fed.subrange(0, done);
        let ghost tail = fed.skip(done);
        let ghost cs = decode_utf8(head);
        let ghost next = fed.push(byte);
        let ghost unit = tail.push(byte);
        proof {
            lemma_valid_up_to_is_valid(fed);
            lemma_valid_up_to_append(head, unit);
            assert(head + unit =~= next);
            assert(tail + seq![byte] =~= unit);
        }
        self.fed = Ghost(next);
        self.seen = self.seen + 1;
        if self.failed {
            proof {
                lemma_broken_stays(tail, seq![byte]);
                assert(next.subrange(0, done) =~= head);
                assert(next.skip(done) =~= unit);
            }
            return ;
        }
        self.pending.push(byte);
        let width = leading_width(self.pending[0]);
        if width == 0 {
            self.failed = true;
            proof {
                assert(next.subrange(0, done) =~= head);
                assert(next.skip(done) =~= unit);
            }
        } else if self.pending.len() < width {
            proof {
                assert(next.subrange(0, done) =~= head);
                assert(next.skip(done) =~= unit);
            }
        } else {
            match decode_scalar(self.pending.as_slice()) {
                None => {
                    self.failed = true;
                    proof {
                        assert(next.subrange(0, done) =~= head);
                        assert(next.skip(done) =~= unit);
                    }
                },
                Some(code) => {
                    let ghost c = code as char;
                    let ghost grown = cs.push(c);
                    proof {
                        lemma_single_scalar(unit);
                        lemma_decode_append(head, unit);
                        lemma_counts_bounded(cs);
                        assert(pop_first_scalar(unit) =~= Seq::<u8>::empty());
                        assert(valid_up_to(pop_first_scalar(unit)) == 0);
                        assert(valid_up_to(unit) == unit.len());
                        assert(next.subrange(0, next.len() as int) =~= next);
                        assert(next.skip(next.len() as int) =~= Seq::<u8>::empty());
                        assert(decode_utf8(next) =~= grown);
                        assert(grown.drop_last() =~= cs);
                        assert(grown.last() == c);
                        assert(c as u32 == code);
                    }
                    self.bytes = self.bytes + width;
                    self.chars = self.chars + 1;
                    if code == 0x0A {
                        self.lines = self.lines + 1;
                        self.line_length = 0;
                    } else {
                        let step: usize = if code == 0x09 {
                            TAB_WIDTH
                        } else {
                            1
                        };
                        self.line_length = self.line_length + step;
                        if self.line_length > self.max_line_length {
                            self.max_line_length = self.line_length;
                        }
                    }
                    let white = code_is_whitespace(code);
                    if !white && !self.in_word {
                        self.words = self.words + 1;
                    }
                    self.in_word = !white;
                    self.pending.clear();
                },
            }
        }
    }

    /// Takes the next piece of the file's content. Fails, now and at every
    /// later call, once the bytes handed over cannot be the beginning of any
    /// UTF-8 text.
    pub fn feed(&mut self, chunk: &[u8]) -> (r: Result<(), ScanError>)
        requires
            old(self).wf(),
            chunk@.len() <= old(self).spec_room(),
        ensures
            final(self).wf(),
            final(self).fed() == old(self).fed() + chunk@,
            final(self).filename() == old(self).filename(),
            r is Err <==> undecodable(final(self).fed()),
            r matches Err(e) ==> e@ == (ScanErrorView::InvalidEncoding {
                path: old(self).filename(),
                offset: valid_up_to(final(self).fed()),
            }),
    {
        let mut i: usize = 0;
        proof {
            assert(self.fed() + chunk@.subrange(0, 0) =~= self.fed());
        }
        while i < chunk.len()
            invariant
                i <= chunk.len(),
                self.wf(),
                self.fed() == old(self).fed() + chunk@.subrange(0, i as int),
                self.filename() == old(self).filename(),
                old(self).fed().len() + chunk@.len() <= capacity(),
            decreases chunk.len() - i,
        {
            let byte = chunk[i];
            proof {
                assert(chunk@.subrange(0, i + 1) =~= chunk@.subrange(0, i as int).push(byte));
                assert((old(self).fed() + chunk@.subrange(0, i as int)).push(byte) =~= old(
                    self,
                ).fed() + chunk@.subrange(0, i + 1));
            }
            self.push_byte(byte);
            i = i + 1;
        }
        proof {
            assert(chunk@.subrange(0, chunk@.len() as int) =~= chunk@);
        }
        if self.failed {
            Err(ScanError::InvalidEncoding { path: self.filename.clone(), offset: self.bytes })
        } else {
            Ok(())
        }
    }

    /// Ends the count: the file's content is what was handed over.
    pub fn finish(self) -> (r: Result<Metrics, ScanError>)
        requires
            self.wf(),
        ensures
            outcome_view(r) == scan_outcome(self.filename(), self.fed()),
            r matches Ok(m) ==> m.bytes == self.fed().len(),
    {
        proof {
            lemma_valid_iff_read_whole(self.fed@);
            lemma_valid_up_to_is_valid(self.fed@);
            assert(self.fed@.subrange(0, self.fed@.len() as int) =~= self.fed@);
        }
        if self.failed || self.pending.len() > 0 {
            Err(ScanError::InvalidEncoding { path: self.filename, offset: self.bytes })
        } else {
            Ok(
                Metrics {
                    bytes: self.bytes,
                    chars: self.chars,
                    lines: self.lines,
                    words: self.words,
                    max_line_length: self.max_line_length,
                    filename: self.filename,
                },
            )
        }
    }
}

/// Counts the file `filename`, whose whole content is `content`.
pub fn count(filename: &str, content: &[u8]) -> (r: Result<Metrics, ScanError>)
    requires
        content@.len() <= capacity(),
    ensures
        outcome_view(r) == scan_outcome(filename@, content@),
        r matches Ok(m) ==> m.bytes == content@.len(),
{
    let mut scanner = Scanner::new(filename);
    let _ = scanner.feed(content);
    proof {
        assert(Seq::<u8>::empty() + content@ =~= content@);
    }
    scanner.finish()
}

/// A file of bytes below 128 alone has as many characters as bytes.
pub proof fn lemma_ascii_has_a_char_per_byte(filename: Seq<char>, bytes: Seq<u8>)
    requires
        forall|i: int| 0 <= i < bytes.len() ==> bytes[i] < 0x80,
    ensures
        scan_outcome(filename, bytes) is Ok,
        scan_outcome(filename, bytes)->Ok_0.chars == scan_outcome(filename, bytes)->Ok_0.bytes,
{
    lemma_ascii_decodes_bytewise(bytes);
}

/// Counting the same content under the same name twice gives the same
/// outcome.
pub proof fn lemma_counting_repeats(
    filename: Seq<char>,
    bytes: Seq<u8>,
    first: Result<Metrics, ScanError>,
    second: Result<Metrics, ScanError>,
)
    requires
        outcome_view(first) == scan_outcome(filename, bytes),
        outcome_view(second) == scan_outcome(filename, bytes),
    ensures
        outcome_view(first) == outcome_view(second),
{
}

/// Once the bytes handed over cannot begin any UTF-8 text, the count fails
/// whatever follows them, and at the same offset.
pub proof fn lemma_failure_is_final(filename: Seq<char>, bytes: Seq<u8>, more: Seq<u8>)
    requires
        undecodable(bytes),
    ensures
        undecodable(bytes + more),
        scan_outcome(filename, bytes + more) == Err::<MetricsView, ScanErrorView>(
            ScanErrorView::InvalidEncoding { path: filename, offset: valid_up_to(bytes) },
        ),
{
    let done = valid_up_to(bytes) as int;
    let head = bytes.subrange(0, done);
    let tail = bytes.skip(done);
    lemma_valid_up_to_is_valid(bytes);
    lemma_broken_stays(tail, more);
    lemma_valid_up_to_append(head, tail + more);
    assert(head + (tail + more) =~= bytes + more);
    assert((bytes + more).skip(done) =~= tail + more);
    lemma_valid_iff_read_whole(bytes + more);
}

} // verus!
