use vstd::prelude::*;
use vstd::slice::slice_subrange;
use vstd::string::StringExecFns;

use crate::encoded_word::{decode_word, EQUALS, QUESTION};
use crate::stream::{is_blank, MessageStream, CR, LF, SP, TAB};
use crate::text::{lossy_text, text_from_bytes};
use crate::{shape, HeaderValue};

verus! {

pub const COMMA: u8 = 0x2c;

/// The state of a scan between two bytes.
pub struct ScanModel {
    /// The bytes of the open word, from its first significant byte to its
    /// last; empty where no word is open.
    pub word: Seq<u8>,
    /// The blanks and carriage returns read since the open word's last byte.
    pub gap: Seq<u8>,
    /// Whether the scan stands between words.
    pub boundary: bool,
    /// The pieces of the current entry.
    pub tokens: Seq<Seq<char>>,
    /// The entries completed so far.
    pub list: Seq<Seq<char>>,
    /// Whether the current entry's last piece is a word closed at a folded
    /// line break: an encoded word that comes next is set off by a space.
    pub folded: bool,
}

pub open spec fn space() -> Seq<char> {
    seq![' ']
}

/// The pieces joined in order.
pub open spec fn concat_all(ts: Seq<Seq<char>>) -> Seq<char>
    decreases ts.len(),
{
    if ts.len() == 0 {
        Seq::empty()
    } else {
        concat_all(ts.drop_last()) + ts.last()
    }
}

/// Every piece or entry holds some text.
pub open spec fn all_nonempty(ts: Seq<Seq<char>>) -> bool {
    forall|i: int| 0 <= i < ts.len() ==> (#[trigger] ts[i]).len() > 0
}

pub open spec fn start_model() -> ScanModel {
    ScanModel {
        word: Seq::empty(),
        gap: Seq::empty(),
        boundary: true,
        tokens: Seq::empty(),
        list: Seq::empty(),
        folded: false,
    }
}

/// Closes the open word: its text becomes a piece of the entry, after a
/// space where the entry already has a piece, and before one where asked.
pub open spec fn flush_word(st: ScanModel, add_space: bool) -> ScanModel {
    if st.word.len() == 0 {
        st
    } else {
        let lead = if st.tokens.len() > 0 {
            st.tokens.push(space())
        } else {
            st.tokens
        };
        let t = lead.push(lossy_text(st.word));
        ScanModel {
            word: Seq::empty(),
            gap: Seq::empty(),
            boundary: true,
            tokens: if add_space {
                t.push(space())
            } else {
                t
            },
            list: st.list,
            folded: st.folded,
        }
    }
}

/// Closes the current entry: its pieces, joined, are appended to the list.
pub open spec fn flush_tokens(st: ScanModel) -> ScanModel {
    if st.tokens.len() == 0 {
        ScanModel { folded: false, ..st }
    } else {
        ScanModel {
            tokens: Seq::empty(),
            list: st.list.push(concat_all(st.tokens)),
            folded: false,
            ..st
        }
    }
}

/// The decoded text of an encoded word becomes a piece of the entry, after
/// a space where a word closed at a fold comes before it.
pub open spec fn push_decoded(st: ScanModel, text: Seq<char>) -> ScanModel {
    let lead = if st.folded {
        st.tokens.push(space())
    } else {
        st.tokens
    };
    ScanModel { tokens: lead.push(text), folded: false, ..st }
}

/// A line break that a blank follows: the open word is closed, and marked
/// as closed at a fold.
pub open spec fn fold_word(st: ScanModel) -> ScanModel {
    ScanModel { folded: st.folded || st.word.len() > 0, ..flush_word(st, false) }
}

/// A significant byte: it opens a word, or extends the open one over the
/// gap before it.
pub open spec fn add_byte(st: ScanModel, b: u8) -> ScanModel {
    ScanModel {
        word: if st.word.len() == 0 {
            seq![b]
        } else {
            st.word + st.gap + seq![b]
        },
        gap: Seq::empty(),
        boundary: false,
        folded: false,
        ..st
    }
}

pub open spec fn skip_blank(st: ScanModel, b: u8) -> ScanModel {
    ScanModel {
        gap: if st.word.len() > 0 {
            st.gap.push(b)
        } else {
            st.gap
        },
        boundary: true,
        ..st
    }
}

pub open spec fn skip_cr(st: ScanModel) -> ScanModel {
    ScanModel {
        gap: if st.word.len() > 0 {
            st.gap.push(CR)
        } else {
            st.gap
        },
        ..st
    }
}

/// The entries once the open word and the current entry are closed.
pub open spec fn finish(st: ScanModel) -> Seq<Seq<char>> {
    flush_tokens(flush_word(st, false)).list
}

/// Whether an `=` read in state `st`, followed by `tail`, opens an encoded
/// word that decodes.
pub open spec fn opens_encoded_word(st: ScanModel, tail: Seq<u8>) -> bool {
    st.boundary && tail.len() > 0 && tail[0] == QUESTION && decode_word(tail) is Some
        && decode_word(tail)->Some_0.1 <= tail.len()
}

/// The entries that the scan of `rest` from state `st` completes, and how
/// many bytes of `rest` it leaves unread: it stops after a line break that
/// no blank follows, or at the end.
pub open spec fn scan(rest: Seq<u8>, st: ScanModel) -> (Seq<Seq<char>>, nat)
    decreases rest.len(),
{
    if rest.len() == 0 {
        (finish(st), 0)
    } else {
        let b = rest[0];
        let tail = rest.drop_first();
        if b == LF {
            if tail.len() > 0 && is_blank(tail[0]) {
                scan(tail, fold_word(st))
            } else {
                (finish(st), tail.len())
            }
        } else if is_blank(b) {
            scan(tail, skip_blank(st, b))
        } else if b == COMMA {
            scan(tail, flush_tokens(flush_word(st, false)))
        } else if b == CR {
            scan(tail, skip_cr(st))
        } else if b == EQUALS && opens_encoded_word(st, tail) {
            let (text, n) = decode_word(tail)->Some_0;
            scan(tail.skip(n as int), push_decoded(flush_word(st, true), text))
        } else {
            scan(tail, add_byte(st, b))
        }
    }
}

/// The entries of the header value at the start of `data`.
pub open spec fn entries_of(data: Seq<u8>) -> Seq<Seq<char>> {
    scan(data, start_model()).0
}

fn space_string() -> (r: String)
    ensures
        r@ == space(),
{
    proof {
        reveal_strlit(" ");
    }
    String::from_str(" ")
}

struct ListParser {
    token_start: usize,
    token_end: usize,
    is_token_start: bool,
    tokens: Vec<String>,
    list: Vec<String>,
    closed_at_fold: bool,
}

impl ListParser {
    /// Offsets are one-based: `token_start == 0` means that no word is open,
    /// and else the word is `data[token_start - 1 .. token_end]`.
    spec fn inv(&self, data: Seq<u8>, pos: int) -> bool {
        pos <= data.len() && (self.token_start == 0 ==> self.is_token_start) && (
        self.token_start > 0 ==> 1 <= self.token_start <= self.token_end <= pos) && all_nonempty(
            self.tokens@.map_values(|s: String| s@),
        ) && all_nonempty(self.list@.map_values(|s: String| s@))
    }

    spec fn model(&self, data: Seq<u8>, pos: int) -> ScanModel {
        ScanModel {
            word: if self.token_start == 0 {
                Seq::empty()
            } else {
                data.subrange(self.token_start - 1, self.token_end as int)
            },
            gap: if self.token_start == 0 {
                Seq::empty()
            } else {
                data.subrange(self.token_end as int, pos)
            },
            boundary: self.is_token_start,
            tokens: self.tokens@.map_values(|s: String| s@),
            list: self.list@.map_values(|s: String| s@),
            folded: self.closed_at_fold,
        }
    }

    fn add_token(&mut self, stream: &MessageStream, add_space: bool)
        requires
            stream.wf(),
            old(self).inv(stream.data@, stream.pos as int),
        ensures
            final(self).inv(stream.data@, stream.pos as int),
            final(self).token_end == old(self).token_end,
            final(self).model(stream.data@, stream.pos as int) == flush_word(
                old(self).model(stream.data@, stream.pos as int),
                add_space,
            ),
    {
        let ghost data = stream.data@;
        let ghost pos = stream.pos as int;
        let ghost st = self.model(data, pos);
        if self.token_start > 0 {
            if self.tokens.len() > 0 {
                self.tokens.push(space_string());
            }
            let word = text_from_bytes(
                slice_subrange(stream.data.as_slice(), self.token_start - 1, self.token_end),
            );
            self.tokens.push(word);
            if add_space {
                self.tokens.push(space_string());
            }
            self.token_start = 0;
            self.is_token_start = true;
            let ghost lead = if st.tokens.len() > 0 {
                st.tokens.push(space())
            } else {
                st.tokens
            };
            let ghost t = lead.push(lossy_text(st.word));
            let ghost want = if add_space {
                t.push(space())
            } else {
                t
            };
            assert(self.tokens@.map_values(|s: String| s@) =~= want);
        }
    }

    fn add_tokens_to_list(&mut self, stream: &MessageStream)
        requires
            old(self).inv(stream.data@, stream.pos as int),
        ensures
            final(self).inv(stream.data@, stream.pos as int),
            final(self).token_start == old(self).token_start,
            final(self).token_end == old(self).token_end,
            final(self).is_token_start == old(self).is_token_start,
            final(self).model(stream.data@, stream.pos as int) == flush_tokens(
                old(self).model(stream.data@, stream.pos as int),
            ),
    {
        let ghost ts = self.tokens@.map_values(|s: String| s@);
        if self.tokens.len() > 0 {
            let value = if self.tokens.len() == 1 {
                assert(ts.drop_last() =~= Seq::empty());
                assert(concat_all(ts.drop_last()) =~= Seq::<char>::empty());
                assert(concat_all(ts) =~= ts[0]);
                match self.tokens.pop() {
                    Some(v) => v,
                    None => String::new(),
                }
            } else {
                let mut value = String::new();
                let mut i: usize = 0;
                while i < self.tokens.len()
                    invariant
                        i <= self.tokens@.len(),
                        ts == self.tokens@.map_values(|s: String| s@),
                        value@ == concat_all(ts.take(i as int)),
                    decreases self.tokens@.len() - i,
                {
                    assert(ts.take(i + 1).drop_last() =~= ts.take(i as int));
                    value.append(self.tokens[i].as_str());
                    i = i + 1;
                }
                assert(ts.take(i as int) =~= ts);
                self.tokens = Vec::new();
                value
            };
            assert(value@ == concat_all(ts));
            self.list.push(value);
            assert(self.tokens@.map_values(|s: String| s@) =~= Seq::empty());
            assert(self.list@.map_values(|s: String| s@) =~= old(self).list@.map_values(
                |s: String| s@,
            ).push(concat_all(ts)));
        }
        self.closed_at_fold = false;
    }

    fn into_value(self) -> (r: HeaderValue)
        ensures
            r@ == shape(self.list@.map_values(|s: String| s@)),
    {
        let ghost l = self.list@.map_values(|s: String| s@);
        let mut list = self.list;
        if list.len() == 0 {
            HeaderValue::Empty
        } else if list.len() == 1 {
            match list.pop() {
                Some(v) => HeaderValue::Text(v),
                None => HeaderValue::Empty,
            }
        } else {
            let r = HeaderValue::TextList(list);
            assert(r@ == shape(l));
            r
        }
    }
}

impl MessageStream {
    /// Reads a comma-separated header value from the current position, up
    /// to and including the first line break that no blank follows, or to
    /// the end of the buffer.
    pub fn parse_comma_separared(&mut self) -> (r: HeaderValue)
        requires
            old(self).wf(),
        ensures
            final(self).wf(),
            final(self).data == old(self).data,
            r@ == shape(scan(old(self).rest(), start_model()).0),
            all_nonempty(scan(old(self).rest(), start_model()).0),
            final(self).pos == old(self).data@.len() - scan(old(self).rest(), start_model()).1,
    {
        let ghost goal = scan(self.rest(), start_model());
        let mut parser = ListParser {
            token_start: 0,
            token_end: 0,
            is_token_start: true,
            tokens: Vec::new(),
            list: Vec::new(),
            closed_at_fold: false,
        };
        assert(parser.tokens@.map_values(|s: String| s@) =~= Seq::empty());
        assert(parser.list@.map_values(|s: String| s@) =~= Seq::empty());
        assert(parser.model(self.data@, self.pos as int) == start_model());
        loop
            invariant
                self.wf(),
                self.data == old(self).data,
                parser.inv(self.data@, self.pos as int),
                scan(self.rest(), parser.model(self.data@, self.pos as int)) == goal,
                goal == scan(old(self).rest(), start_model()),
            decreases self.data@.len() - self.pos,
        {
            let ghost data = self.data@;
            let ghost p = self.pos as int;
            let ghost st = parser.model(data, p);
            let ghost rest = data.skip(p);
            let ghost tail = data.skip(p + 1);
            match self.next() {
                None => {
                    assert(rest.len() == 0);
                    parser.add_token(self, false);
                    parser.add_tokens_to_list(self);
                    return parser.into_value();
                },
                Some(ch) => {
                    assert(rest.drop_first() =~= tail);
                    assert(rest[0] == ch);
                    if ch == LF {
                        let had_word = parser.token_start > 0;
                        parser.add_token(self, false);
                        if !self.try_next_is_space() {
                            parser.add_tokens_to_list(self);
                            return parser.into_value();
                        }
                        if had_word {
                            parser.closed_at_fold = true;
                        }
                        assert(parser.model(data, p + 1) == fold_word(st));
                    } else if ch == SP || ch == TAB {
                        parser.is_token_start = true;
                        if parser.token_start > 0 {
                            assert(data.subrange(parser.token_end as int, p + 1)
                                =~= st.gap.push(ch));
                        }
                        assert(parser.model(data, p + 1) == skip_blank(st, ch));
                        assert(scan(rest, st) == scan(tail, skip_blank(st, ch)));
                    } else if ch == COMMA {
                        parser.add_token(self, false);
                        parser.add_tokens_to_list(self);
                        assert(scan(rest, st) == scan(tail, flush_tokens(flush_word(st, false))));
                    } else if ch == CR {
                        if parser.token_start > 0 {
                            assert(data.subrange(parser.token_end as int, p + 1)
                                =~= st.gap.push(ch));
                        }
                        assert(parser.model(data, p + 1) == skip_cr(st));
                        assert(scan(rest, st) == scan(tail, skip_cr(st)));
                    } else {
                        let mut literal = true;
                        if ch == EQUALS && parser.is_token_start && self.peek_char(QUESTION) {
                            self.checkpoint();
                            match self.decode_rfc2047() {
                                Some(token) => {
                                    let ghost n = (self.pos - (p + 1)) as nat;
                                    assert(tail.skip(n as int) =~= self.rest());
                                    let ghost m1 = parser.model(data, self.pos as int);
                                    assert(flush_word(m1, true) == flush_word(st, true));
                                    parser.add_token(self, true);
                                    let ghost before = parser.tokens@.map_values(|s: String| s@);
                                    if parser.closed_at_fold {
                                        parser.tokens.push(space_string());
                                    }
                                    let ghost lead = parser.tokens@.map_values(|s: String| s@);
                                    assert(lead =~= if st.folded {
                                        before.push(space())
                                    } else {
                                        before
                                    });
                                    parser.tokens.push(token);
                                    parser.closed_at_fold = false;
                                    assert(parser.tokens@.map_values(|s: String| s@) =~= lead.push(
                                        token@,
                                    ));
                                    literal = false;
                                    assert(opens_encoded_word(st, tail));
                                    assert(parser.model(data, self.pos as int) == push_decoded(
                                        flush_word(st, true),
                                        token@,
                                    ));
                                },
                                None => {
                                    self.restore();
                                },
                            }
                        }
                        if literal {
                            parser.is_token_start = false;
                            parser.closed_at_fold = false;
                            if parser.token_start == 0 {
                                parser.token_start = self.offset();
                                assert(data.subrange(p, p + 1) =~= seq![ch]);
                            } else {
                                assert(data.subrange(parser.token_start - 1, p + 1) =~= data.subrange(
                                    parser.token_start - 1,
                                    parser.token_end as int,
                                ) + data.subrange(parser.token_end as int, p) + seq![ch]);
                            }
                            parser.token_end = self.offset();
                            assert(data.subrange(p + 1, p + 1) =~= Seq::<u8>::empty());
                            assert(parser.model(data, p + 1) == add_byte(st, ch));
                            assert(scan(rest, st) == scan(tail, add_byte(st, ch)));
                        }
                    }
                },
            }
        }
    }
}

} // verus!
