use vstd::prelude::*;

use crate::encoded_word::{decode_word, lemma_decode_word_prefix, EQUALS, QUESTION};
use crate::list::{
    add_byte, concat_all, entries_of, finish, flush_tokens, flush_word, fold_word, opens_encoded_word,
    push_decoded, scan, skip_blank, skip_cr, space, start_model, ScanModel, COMMA,
};
use crate::stream::{is_blank, CR, LF};
use crate::text::lossy_text;
use crate::{shape, ValueModel};

verus! {

/// A byte that the scan skips between words: a blank or a carriage return.
pub open spec fn is_spacing(b: u8) -> bool {
    is_blank(b) || b == CR
}

pub open spec fn all_spacing(s: Seq<u8>) -> bool {
    forall|i: int| 0 <= i < s.len() ==> is_spacing(#[trigger] s[i])
}

/// A byte that belongs to a plain word.
pub open spec fn is_plain(b: u8) -> bool {
    !is_spacing(b) && b != LF && b != COMMA && b != EQUALS
}

/// Bytes with no line break, comma or `=`: the scan takes them one by one.
pub open spec fn no_breaks(s: Seq<u8>) -> bool {
    forall|i: int| 0 <= i < s.len() ==> #[trigger] s[i] != LF && s[i] != COMMA && s[i] != EQUALS
}

/// Plain text that starts and ends with a plain byte, with no line break,
/// comma or `=` in it.
pub open spec fn plain_core(s: Seq<u8>) -> bool {
    s.len() > 0 && is_plain(s[0]) && is_plain(s.last()) && no_breaks(s)
}

/// The state between entries, with `list` completed.
pub open spec fn between_entries(list: Seq<Seq<char>>) -> ScanModel {
    ScanModel { list, ..start_model() }
}

/// An entry written as leading spacing, a plain core, and trailing spacing.
pub open spec fn plain_entry(e: (Seq<u8>, Seq<u8>, Seq<u8>)) -> bool {
    all_spacing(e.0) && plain_core(e.1) && all_spacing(e.2)
}

pub open spec fn entry_bytes(e: (Seq<u8>, Seq<u8>, Seq<u8>)) -> Seq<u8> {
    e.0 + e.1 + e.2
}

/// The entries written one after another, with a comma between two.
pub open spec fn join_entries(es: Seq<(Seq<u8>, Seq<u8>, Seq<u8>)>) -> Seq<u8>
    decreases es.len(),
{
    if es.len() == 0 {
        Seq::empty()
    } else if es.len() == 1 {
        entry_bytes(es[0])
    } else {
        entry_bytes(es[0]) + seq![COMMA] + join_entries(es.drop_first())
    }
}

pub open spec fn core_texts(es: Seq<(Seq<u8>, Seq<u8>, Seq<u8>)>) -> Seq<Seq<char>> {
    es.map_values(|e: (Seq<u8>, Seq<u8>, Seq<u8>)| lossy_text(e.1))
}

/// What the scan does with a byte that is neither a line break, a comma
/// nor `=`.
pub open spec fn step_plain(st: ScanModel, b: u8) -> ScanModel {
    if is_blank(b) {
        skip_blank(st, b)
    } else if b == CR {
        skip_cr(st)
    } else {
        add_byte(st, b)
    }
}

pub open spec fn fold_plain(st: ScanModel, m: Seq<u8>) -> ScanModel
    decreases m.len(),
{
    if m.len() == 0 {
        st
    } else {
        fold_plain(step_plain(st, m[0]), m.drop_first())
    }
}

proof fn lemma_scan_plain(m: Seq<u8>, rest: Seq<u8>, st: ScanModel)
    requires
        no_breaks(m),
    ensures
        scan(m + rest, st) == scan(rest, fold_plain(st, m)),
    decreases m.len(),
{
    if m.len() == 0 {
        assert(m + rest =~= rest);
    } else {
        let s = m + rest;
        assert(s[0] == m[0]);
        assert(s.drop_first() =~= m.drop_first() + rest);
        assert(m[0] != LF && m[0] != COMMA && m[0] != EQUALS);
        assert(scan(s, st) == scan(s.drop_first(), step_plain(st, m[0])));
        lemma_scan_plain(m.drop_first(), rest, step_plain(st, m[0]));
    }
}

proof fn lemma_fold_concat(st: ScanModel, a: Seq<u8>, b: Seq<u8>)
    ensures
        fold_plain(st, a + b) == fold_plain(fold_plain(st, a), b),
    decreases a.len(),
{
    if a.len() == 0 {
        assert(a + b =~= b);
    } else {
        assert((a + b).drop_first() =~= a.drop_first() + b);
        assert((a + b)[0] == a[0]);
        lemma_fold_concat(step_plain(st, a[0]), a.drop_first(), b);
    }
}

/// No word open, no gap, at a word boundary.
pub open spec fn idle(st: ScanModel) -> bool {
    st.word.len() == 0 && st.gap.len() == 0 && st.boundary
}

/// Spacing outside a word changes nothing.
proof fn lemma_fold_spacing_between(st: ScanModel, m: Seq<u8>)
    requires
        all_spacing(m),
        idle(st),
    ensures
        fold_plain(st, m) == st,
    decreases m.len(),
{
    if m.len() > 0 {
        assert(is_spacing(m[0]));
        assert(step_plain(st, m[0]) == st);
        assert(all_spacing(m.drop_first())) by {
            assert forall|i: int| 0 <= i < m.drop_first().len() implies is_spacing(
                #[trigger] m.drop_first()[i],
            ) by {
                assert(m.drop_first()[i] == m[i + 1]);
            }
        }
        lemma_fold_spacing_between(st, m.drop_first());
    }
}

/// Spacing after a word leaves the word, the pieces and the entries alone.
proof fn lemma_fold_spacing_after(st: ScanModel, m: Seq<u8>)
    requires
        all_spacing(m),
        st.word.len() > 0,
    ensures
        fold_plain(st, m).word == st.word,
        fold_plain(st, m).tokens == st.tokens,
        fold_plain(st, m).list == st.list,
        fold_plain(st, m).folded == st.folded,
    decreases m.len(),
{
    if m.len() > 0 {
        assert(is_spacing(m[0]));
        assert(all_spacing(m.drop_first())) by {
            assert forall|i: int| 0 <= i < m.drop_first().len() implies is_spacing(
                #[trigger] m.drop_first()[i],
            ) by {
                assert(m.drop_first()[i] == m[i + 1]);
            }
        }
        lemma_fold_spacing_after(step_plain(st, m[0]), m.drop_first());
    }
}

/// Plain text that ends in a plain byte extends the open word over the gap
/// and all of the text.
proof fn lemma_fold_extends(st: ScanModel, m: Seq<u8>)
    requires
        st.word.len() > 0,
        m.len() > 0,
        is_plain(m.last()),
        no_breaks(m),
    ensures
        fold_plain(st, m) == (ScanModel {
            word: st.word + st.gap + m,
            gap: Seq::empty(),
            boundary: false,
            folded: false,
            ..st
        }),
    decreases m.len(),
{
    let b = m[0];
    let m2 = m.drop_first();
    assert(no_breaks(m2)) by {
        assert forall|i: int| 0 <= i < m2.len() implies #[trigger] m2[i] != LF && m2[i] != COMMA
            && m2[i] != EQUALS by {
            assert(m2[i] == m[i + 1]);
        }
    }
    assert(fold_plain(st, m) == fold_plain(step_plain(st, b), m2));
    if m.len() == 1 {
        assert(m.last() == b);
        assert(m2 =~= Seq::<u8>::empty());
        assert(fold_plain(step_plain(st, b), m2) == step_plain(st, b));
        assert(st.word + st.gap + m =~= st.word + st.gap + seq![b]);
    } else {
        assert(m2.last() == m.last());
        lemma_fold_extends(step_plain(st, b), m2);
        if is_spacing(b) {
            assert(st.word + st.gap.push(b) + m2 =~= st.word + st.gap + m);
        } else {
            assert(st.word + st.gap + seq![b] + Seq::<u8>::empty() + m2 =~= st.word + st.gap + m);
        }
    }
}

/// A plain core read outside a word becomes the open word.
proof fn lemma_fold_core(st: ScanModel, core: Seq<u8>)
    requires
        plain_core(core),
        idle(st),
    ensures
        fold_plain(st, core) == (ScanModel {
            word: core,
            gap: Seq::empty(),
            boundary: false,
            folded: false,
            ..st
        }),
{
    let st1 = step_plain(st, core[0]);
    assert(st1.word =~= seq![core[0]]);
    let rest = core.drop_first();
    assert(fold_plain(st, core) == fold_plain(st1, rest));
    if core.len() == 1 {
        assert(core =~= seq![core[0]]);
        assert(rest =~= Seq::<u8>::empty());
        assert(fold_plain(st1, rest) == st1);
    } else {
        assert(rest.last() == core.last());
        assert(no_breaks(rest)) by {
            assert forall|i: int| 0 <= i < rest.len() implies #[trigger] rest[i] != LF && rest[i]
                != COMMA && rest[i] != EQUALS by {
                assert(rest[i] == core[i + 1]);
            }
        }
        lemma_fold_extends(st1, rest);
        assert(seq![core[0]] + Seq::<u8>::empty() + rest =~= core);
    }
}

/// One plain entry read between entries leaves its core as the open word.
proof fn lemma_scan_entry(list: Seq<Seq<char>>, e: (Seq<u8>, Seq<u8>, Seq<u8>), rest: Seq<u8>)
    requires
        plain_entry(e),
    ensures
        ({
            let st = fold_plain(between_entries(list), entry_bytes(e));
            &&& scan(entry_bytes(e) + rest, between_entries(list)) == scan(rest, st)
            &&& st.word == e.1
            &&& st.tokens.len() == 0
            &&& st.list == list
        }),
{
    let b = entry_bytes(e);
    assert(no_breaks(b)) by {
        assert forall|i: int| 0 <= i < b.len() implies #[trigger] b[i] != LF && b[i] != COMMA
            && b[i] != EQUALS by {
            if i < e.0.len() {
                assert(b[i] == e.0[i]);
                assert(is_spacing(e.0[i]));
            } else if i < e.0.len() + e.1.len() {
                assert(b[i] == e.1[i - e.0.len()]);
            } else {
                assert(b[i] == e.2[i - e.0.len() - e.1.len()]);
                assert(is_spacing(e.2[i - e.0.len() - e.1.len()]));
            }
        }
    }
    lemma_scan_plain(b, rest, between_entries(list));
    lemma_fold_concat(between_entries(list), e.0 + e.1, e.2);
    lemma_fold_concat(between_entries(list), e.0, e.1);
    lemma_fold_spacing_between(between_entries(list), e.0);
    lemma_fold_core(between_entries(list), e.1);
    let st = fold_plain(between_entries(list), e.0 + e.1);
    lemma_fold_spacing_after(st, e.2);
}

proof fn lemma_concat_one(t: Seq<char>)
    ensures
        concat_all(seq![t]) == t,
{
    assert(seq![t].drop_last() =~= Seq::<Seq<char>>::empty());
    assert(concat_all(Seq::<Seq<char>>::empty()) =~= Seq::<char>::empty());
    assert(Seq::<char>::empty() + t =~= t);
}

/// The open word closed at the end: one more entry, its text.
proof fn lemma_finish_word(st: ScanModel)
    requires
        st.word.len() > 0,
        st.tokens.len() == 0,
    ensures
        finish(st) == st.list.push(lossy_text(st.word)),
        flush_tokens(flush_word(st, false)) == between_entries(st.list.push(lossy_text(st.word))),
{
    let f = flush_word(st, false);
    assert(f.tokens =~= seq![lossy_text(st.word)]);
    lemma_concat_one(lossy_text(st.word));
}

/// Plain entries joined by commas, then the end of the buffer or a line
/// break, give one entry each: its core's text.
proof fn lemma_scan_entries(
    list: Seq<Seq<char>>,
    es: Seq<(Seq<u8>, Seq<u8>, Seq<u8>)>,
    end: Seq<u8>,
)
    requires
        es.len() >= 1,
        forall|i: int| 0 <= i < es.len() ==> plain_entry(#[trigger] es[i]),
        end == Seq::<u8>::empty() || end == seq![LF],
    ensures
        scan(join_entries(es) + end, between_entries(list)).0 == list + core_texts(es),
    decreases es.len(),
{
    assert(plain_entry(es[0]));
    if es.len() == 1 {
        lemma_scan_entry(list, es[0], end);
        let st = fold_plain(between_entries(list), entry_bytes(es[0]));
        lemma_finish_word(st);
        if end.len() > 0 {
            assert(end.drop_first() =~= Seq::<u8>::empty());
        }
        assert(list + core_texts(es) =~= list.push(lossy_text(es[0].1)));
    } else {
        let rest = es.drop_first();
        let more = join_entries(rest) + end;
        assert(join_entries(es) + end =~= entry_bytes(es[0]) + (seq![COMMA] + more));
        lemma_scan_entry(list, es[0], seq![COMMA] + more);
        let st = fold_plain(between_entries(list), entry_bytes(es[0]));
        lemma_finish_word(st);
        assert((seq![COMMA] + more).drop_first() =~= more);
        let list2 = list.push(lossy_text(es[0].1));
        assert forall|i: int| 0 <= i < rest.len() implies plain_entry(#[trigger] rest[i]) by {
            assert(rest[i] == es[i + 1]);
        }
        lemma_scan_entries(list2, rest, end);
        assert(list2 + core_texts(rest) =~= list + core_texts(es));
    }
}

/// A header value made only of blanks, carriage returns and line breaks
/// has no entries: its value is `Empty`.
pub proof fn lemma_blank_value_is_empty(data: Seq<u8>)
    requires
        forall|i: int| 0 <= i < data.len() ==> is_spacing(#[trigger] data[i]) || data[i] == LF,
    ensures
        entries_of(data) == Seq::<Seq<char>>::empty(),
        shape(entries_of(data)) == ValueModel::Empty,
{
    lemma_scan_blank(data, start_model());
}

proof fn lemma_scan_blank(rest: Seq<u8>, st: ScanModel)
    requires
        forall|i: int| 0 <= i < rest.len() ==> is_spacing(#[trigger] rest[i]) || rest[i] == LF,
        st == start_model(),
    ensures
        scan(rest, st).0 == Seq::<Seq<char>>::empty(),
    decreases rest.len(),
{
    if rest.len() > 0 {
        let tail = rest.drop_first();
        assert(is_spacing(rest[0]) || rest[0] == LF);
        assert forall|i: int| 0 <= i < tail.len() implies is_spacing(#[trigger] tail[i]) || tail[i]
            == LF by {
            assert(tail[i] == rest[i + 1]);
        }
        if rest[0] == LF {
            assert(fold_word(st) == st);
        } else {
            assert(skip_blank(st, rest[0]) == st);
            assert(skip_cr(st) == st);
        }
        lemma_scan_blank(tail, st);
    }
}

/// One plain entry, with spacing around it and nothing or a line break
/// after, is `Text` of its core alone: the spacing around never shows.
pub proof fn lemma_single_entry(lead: Seq<u8>, core: Seq<u8>, trail: Seq<u8>, end: Seq<u8>)
    requires
        all_spacing(lead),
        plain_core(core),
        all_spacing(trail),
        end == Seq::<u8>::empty() || end == seq![LF],
    ensures
        shape(entries_of(lead + core + trail + end)) == ValueModel::Text(lossy_text(core)),
{
    let es = seq![(lead, core, trail)];
    assert(plain_entry(es[0]));
    lemma_scan_entries(Seq::empty(), es, end);
    assert(join_entries(es) == lead + core + trail);
    assert(Seq::<Seq<char>>::empty() + core_texts(es) =~= seq![lossy_text(core)]);
    assert(between_entries(Seq::empty()) == start_model());
}

/// Two or more plain entries joined by commas give a `TextList` with one
/// element for each, in order: the text of its core.
pub proof fn lemma_entry_list(es: Seq<(Seq<u8>, Seq<u8>, Seq<u8>)>, end: Seq<u8>)
    requires
        es.len() >= 2,
        forall|i: int| 0 <= i < es.len() ==> plain_entry(#[trigger] es[i]),
        end == Seq::<u8>::empty() || end == seq![LF],
    ensures
        shape(entries_of(join_entries(es) + end)) == ValueModel::TextList(core_texts(es)),
        core_texts(es).len() == es.len(),
{
    lemma_scan_entries(Seq::empty(), es, end);
    assert(Seq::<Seq<char>>::empty() + core_texts(es) =~= core_texts(es));
    assert(between_entries(Seq::empty()) == start_model());
}

proof fn lemma_concat_three(a: Seq<char>, b: Seq<char>, c: Seq<char>)
    ensures
        concat_all(seq![a, b, c]) == a + b + c,
{
    let ts = seq![a, b, c];
    assert(ts.drop_last() =~= seq![a, b]);
    lemma_concat_two(a, b);
}

proof fn lemma_concat_two(a: Seq<char>, b: Seq<char>)
    ensures
        concat_all(seq![a, b]) == a + b,
{
    assert(seq![a, b].drop_last() =~= seq![a]);
    lemma_concat_one(a);
}

/// Whitespace that may fold: blanks, carriage returns, and line breaks
/// each followed by a blank.
pub open spec fn folding_space(ws: Seq<u8>) -> bool {
    forall|i: int|
        0 <= i < ws.len() ==> is_spacing(#[trigger] ws[i]) || (ws[i] == LF && i + 1 < ws.len()
            && is_blank(ws[i + 1]))
}

proof fn lemma_scan_folding_space(ws: Seq<u8>, rest: Seq<u8>, st: ScanModel)
    requires
        folding_space(ws),
        idle(st),
    ensures
        scan(ws + rest, st) == scan(rest, st),
    decreases ws.len(),
{
    if ws.len() == 0 {
        assert(ws + rest =~= rest);
    } else {
        let s = ws + rest;
        let w2 = ws.drop_first();
        assert(s[0] == ws[0]);
        assert(s.drop_first() =~= w2 + rest);
        assert(folding_space(w2)) by {
            assert forall|i: int| 0 <= i < w2.len() implies is_spacing(#[trigger] w2[i]) || (w2[i]
                == LF && i + 1 < w2.len() && is_blank(w2[i + 1])) by {
                assert(w2[i] == ws[i + 1]);
                assert(folding_space(ws));
                assert(is_spacing(ws[i + 1]) || (ws[i + 1] == LF && i + 2 < ws.len() && is_blank(
                    ws[i + 2],
                )));
            }
        }
        assert(is_spacing(ws[0]) || (ws[0] == LF && 1 < ws.len() && is_blank(ws[1])));
        if ws[0] == LF {
            assert(s.drop_first()[0] == ws[1]);
            assert(fold_word(st) == st);
        } else {
            assert(skip_blank(st, ws[0]) == st);
            assert(skip_cr(st) == st);
        }
        lemma_scan_folding_space(w2, rest, st);
    }
}

/// A line break that a blank follows does not end the value: the scan
/// closes the open word and goes on with the blank.
pub proof fn lemma_fold_continues(st: ScanModel, b: u8, rest: Seq<u8>)
    requires
        is_blank(b),
    ensures
        scan(seq![LF, b] + rest, st) == scan(seq![b] + rest, fold_word(st)),
{
    let s = seq![LF, b] + rest;
    assert(s.drop_first() =~= seq![b] + rest);
}

/// A folded line break between two plain words reads as one space, and no
/// line break shows in the text.
pub proof fn lemma_fold_is_one_space(
    left: Seq<u8>,
    ws1: Seq<u8>,
    ws2: Seq<u8>,
    right: Seq<u8>,
    end: Seq<u8>,
)
    requires
        plain_core(left),
        all_spacing(ws1),
        ws2.len() > 0,
        is_blank(ws2[0]),
        all_spacing(ws2),
        plain_core(right),
        end == Seq::<u8>::empty() || end == seq![LF],
    ensures
        shape(entries_of(left + ws1 + seq![LF] + ws2 + right + end)) == ValueModel::Text(
            lossy_text(left) + space() + lossy_text(right),
        ),
{
    let e = (Seq::<u8>::empty(), left, ws1);
    let after = seq![LF] + (ws2 + right + end);
    assert(left + ws1 + seq![LF] + ws2 + right + end =~= entry_bytes(e) + after);
    lemma_scan_entry(Seq::empty(), e, after);
    assert(between_entries(Seq::empty()) == start_model());
    let st = fold_plain(between_entries(Seq::empty()), entry_bytes(e));
    assert(after.drop_first() =~= ws2 + (right + end));
    assert(after.drop_first()[0] == ws2[0]);
    let f = fold_word(st);
    assert(f.tokens =~= seq![lossy_text(left)]);
    assert(scan(after, st) == scan(ws2 + (right + end), f));
    assert(folding_space(ws2)) by {
        assert forall|i: int| 0 <= i < ws2.len() implies is_spacing(#[trigger] ws2[i]) || (ws2[i]
            == LF && i + 1 < ws2.len() && is_blank(ws2[i + 1])) by {}
    }
    lemma_scan_folding_space(ws2, right + end, f);
    lemma_scan_plain(right, end, f);
    lemma_fold_core(f, right);
    let g = fold_plain(f, right);
    if end.len() > 0 {
        assert(end.drop_first() =~= Seq::<u8>::empty());
    }
    assert(scan(end, g).0 == finish(g));
    let h = flush_word(g, false);
    assert(h.tokens =~= seq![lossy_text(left), space(), lossy_text(right)]);
    lemma_concat_three(lossy_text(left), space(), lossy_text(right));
    assert(finish(g) =~= seq![lossy_text(left) + space() + lossy_text(right)]);
}

/// An `=` and bytes `t` that make an encoded word, read at a word boundary
/// with no word open: its text becomes a piece of the entry.
proof fn lemma_scan_encoded(t: Seq<u8>, rest: Seq<u8>, st: ScanModel)
    requires
        decode_word(t) is Some,
        decode_word(t)->Some_0.1 == t.len(),
        idle(st),
    ensures
        scan(seq![EQUALS] + t + rest, st) == scan(
            rest,
            push_decoded(st, decode_word(t)->Some_0.0),
        ),
{
    let s = seq![EQUALS] + t + rest;
    let tail = s.drop_first();
    assert(tail =~= t + rest);
    lemma_decode_word_prefix(t, rest);
    assert(t[0] == QUESTION);
    assert(tail[0] == t[0]);
    assert(opens_encoded_word(st, tail));
    assert(tail.skip(t.len() as int) =~= rest);
    assert(flush_word(st, true) == st);
}

/// Two encoded words with only folding whitespace between them join with
/// nothing in between.
pub proof fn lemma_adjacent_encoded_words(t1: Seq<u8>, ws: Seq<u8>, t2: Seq<u8>, end: Seq<u8>)
    requires
        decode_word(t1) is Some,
        decode_word(t1)->Some_0.1 == t1.len(),
        decode_word(t2) is Some,
        decode_word(t2)->Some_0.1 == t2.len(),
        folding_space(ws),
        end == Seq::<u8>::empty() || end == seq![LF],
    ensures
        entries_of(seq![EQUALS] + t1 + ws + seq![EQUALS] + t2 + end) == seq![
            decode_word(t1)->Some_0.0 + decode_word(t2)->Some_0.0,
        ],
{
    let x1 = decode_word(t1)->Some_0.0;
    let x2 = decode_word(t2)->Some_0.0;
    let st0 = start_model();
    let rest1 = ws + (seq![EQUALS] + t2 + end);
    assert(seq![EQUALS] + t1 + ws + seq![EQUALS] + t2 + end =~= seq![EQUALS] + t1 + rest1);
    lemma_scan_encoded(t1, rest1, st0);
    let st1 = push_decoded(st0, x1);
    lemma_scan_folding_space(ws, seq![EQUALS] + t2 + end, st1);
    lemma_scan_encoded(t2, end, st1);
    let st2 = push_decoded(st1, x2);
    assert(st2.tokens =~= seq![x1, x2]);
    if end.len() > 0 {
        assert(end.drop_first() =~= Seq::<u8>::empty());
    }
    lemma_concat_two(x1, x2);
    assert(finish(st2) =~= seq![x1 + x2]);
}

/// Plain text right after an encoded word is set off by one space.
pub proof fn lemma_encoded_then_plain(t: Seq<u8>, ws: Seq<u8>, p: Seq<u8>, end: Seq<u8>)
    requires
        decode_word(t) is Some,
        decode_word(t)->Some_0.1 == t.len(),
        folding_space(ws),
        plain_core(p),
        end == Seq::<u8>::empty() || end == seq![LF],
    ensures
        entries_of(seq![EQUALS] + t + ws + p + end) == seq![
            decode_word(t)->Some_0.0 + space() + lossy_text(p),
        ],
{
    let x = decode_word(t)->Some_0.0;
    let st0 = start_model();
    let rest1 = ws + (p + end);
    assert(seq![EQUALS] + t + ws + p + end =~= seq![EQUALS] + t + rest1);
    lemma_scan_encoded(t, rest1, st0);
    let st1 = push_decoded(st0, x);
    lemma_scan_folding_space(ws, p + end, st1);
    lemma_scan_plain(p, end, st1);
    lemma_fold_core(st1, p);
    let g = fold_plain(st1, p);
    if end.len() > 0 {
        assert(end.drop_first() =~= Seq::<u8>::empty());
    }
    let h = flush_word(g, false);
    assert(h.tokens =~= seq![x, space(), lossy_text(p)]);
    lemma_concat_three(x, space(), lossy_text(p));
    assert(finish(g) =~= seq![x + space() + lossy_text(p)]);
}

proof fn lemma_fold_spacing_boundary(st: ScanModel, m: Seq<u8>)
    requires
        all_spacing(m),
        st.word.len() > 0,
    ensures
        fold_plain(st, m).boundary == (st.boundary || exists|i: int|
            0 <= i < m.len() && is_blank(#[trigger] m[i])),
    decreases m.len(),
{
    if m.len() > 0 {
        let m2 = m.drop_first();
        assert(all_spacing(m2)) by {
            assert forall|i: int| 0 <= i < m2.len() implies is_spacing(#[trigger] m2[i]) by {
                assert(m2[i] == m[i + 1]);
            }
        }
        assert(is_spacing(m[0]));
        let st1 = step_plain(st, m[0]);
        lemma_fold_spacing_boundary(st1, m2);
        if exists|i: int| 0 <= i < m.len() && is_blank(#[trigger] m[i]) {
            let i = choose|i: int| 0 <= i < m.len() && is_blank(#[trigger] m[i]);
            if i > 0 {
                assert(m2[i - 1] == m[i]);
            }
        }
        if exists|i: int| 0 <= i < m2.len() && is_blank(#[trigger] m2[i]) {
            let i = choose|i: int| 0 <= i < m2.len() && is_blank(#[trigger] m2[i]);
            assert(m[i + 1] == m2[i]);
        }
    }
}

/// An encoded word after plain text and spacing with a blank in it is set
/// off by one space.
pub proof fn lemma_plain_then_encoded(p: Seq<u8>, ws: Seq<u8>, t: Seq<u8>, end: Seq<u8>)
    requires
        plain_core(p),
        all_spacing(ws),
        exists|i: int| 0 <= i < ws.len() && is_blank(#[trigger] ws[i]),
        decode_word(t) is Some,
        decode_word(t)->Some_0.1 == t.len(),
        end == Seq::<u8>::empty() || end == seq![LF],
    ensures
        entries_of(p + ws + seq![EQUALS] + t + end) == seq![
            lossy_text(p) + space() + decode_word(t)->Some_0.0,
        ],
{
    let x = decode_word(t)->Some_0.0;
    let e = (Seq::<u8>::empty(), p, ws);
    let after = seq![EQUALS] + t + end;
    assert(p + ws + seq![EQUALS] + t + end =~= entry_bytes(e) + after);
    lemma_scan_entry(Seq::empty(), e, after);
    assert(between_entries(Seq::empty()) == start_model());
    let st0 = fold_plain(between_entries(Seq::empty()), Seq::<u8>::empty() + p);
    assert(Seq::<u8>::empty() + p + ws =~= (Seq::<u8>::empty() + p) + ws);
    lemma_fold_concat(between_entries(Seq::empty()), Seq::<u8>::empty() + p, ws);
    assert(Seq::<u8>::empty() + p =~= p);
    lemma_fold_core(between_entries(Seq::empty()), p);
    lemma_fold_spacing_boundary(st0, ws);
    lemma_fold_spacing_after(st0, ws);
    let st = fold_plain(between_entries(Seq::empty()), entry_bytes(e));
    assert(st.boundary);
    let tail = after.drop_first();
    assert(tail =~= t + end);
    lemma_decode_word_prefix(t, end);
    assert(t[0] == QUESTION);
    assert(tail[0] == t[0]);
    assert(opens_encoded_word(st, tail));
    assert(tail.skip(t.len() as int) =~= end);
    let f = push_decoded(flush_word(st, true), x);
    assert(decode_word(tail) == decode_word(t));
    assert(scan(after, st) == scan(end, f));
    assert(f.tokens =~= seq![lossy_text(p), space(), x]);
    if end.len() > 0 {
        assert(end.drop_first() =~= Seq::<u8>::empty());
    }
    lemma_concat_three(lossy_text(p), space(), x);
    assert(finish(f) =~= seq![lossy_text(p) + space() + x]);
}

/// Bytes with no spacing, line break or comma, read inside a word, extend
/// it: an `=` among them opens no encoded word.
proof fn lemma_scan_in_word(m: Seq<u8>, rest: Seq<u8>, st: ScanModel)
    requires
        st.word.len() > 0,
        st.gap.len() == 0,
        !st.boundary,
        !st.folded,
        forall|i: int| 0 <= i < m.len() ==> !is_spacing(#[trigger] m[i]) && m[i] != LF && m[i]
            != COMMA,
    ensures
        scan(m + rest, st) == scan(rest, ScanModel { word: st.word + m, ..st }),
    decreases m.len(),
{
    if m.len() == 0 {
        assert(m + rest =~= rest);
        assert(st.word + m =~= st.word);
    } else {
        let s = m + rest;
        let m2 = m.drop_first();
        assert(s[0] == m[0]);
        assert(s.drop_first() =~= m2 + rest);
        assert(!is_spacing(m[0]) && m[0] != LF && m[0] != COMMA);
        let st1 = add_byte(st, m[0]);
        assert(st.gap =~= Seq::<u8>::empty());
        assert(scan(s, st) == scan(s.drop_first(), st1));
        assert forall|i: int| 0 <= i < m2.len() implies !is_spacing(#[trigger] m2[i]) && m2[i]
            != LF && m2[i] != COMMA by {
            assert(m2[i] == m[i + 1]);
        }
        lemma_scan_in_word(m2, rest, st1);
        assert(st.word + st.gap + seq![m[0]] + m2 =~= st.word + m);
        assert((ScanModel { word: st1.word + m2, ..st1 }) == (ScanModel { word: st.word + m, ..st }));
    }
}

/// A token that starts like an encoded word, `=?`, but does not decode
/// there, is kept byte for byte as plain text.
pub proof fn lemma_malformed_word_is_literal(t: Seq<u8>, end: Seq<u8>)
    requires
        t.len() > 0,
        t[0] == QUESTION,
        forall|i: int| 0 <= i < t.len() ==> !is_spacing(#[trigger] t[i]) && t[i] != LF && t[i]
            != COMMA,
        decode_word(t + end) is None,
        end == Seq::<u8>::empty() || end == seq![LF],
    ensures
        entries_of(seq![EQUALS] + t + end) == seq![lossy_text(seq![EQUALS] + t)],
{
    let s = seq![EQUALS] + t + end;
    let st0 = start_model();
    assert(s.drop_first() =~= t + end);
    assert(!opens_encoded_word(st0, s.drop_first()));
    let st1 = add_byte(st0, EQUALS);
    assert(scan(s, st0) == scan(t + end, st1));
    assert(st1.word =~= seq![EQUALS]);
    lemma_scan_in_word(t, end, st1);
    let st2 = ScanModel { word: st1.word + t, ..st1 };
    if end.len() > 0 {
        assert(end.drop_first() =~= Seq::<u8>::empty());
    }
    lemma_finish_word(st2);
    assert(st2.list.push(lossy_text(st2.word)) =~= seq![lossy_text(seq![EQUALS] + t)]);
}

/// The same bytes give the same value.
pub proof fn lemma_parse_deterministic(a: Seq<u8>, b: Seq<u8>)
    requires
        a == b,
    ensures
        shape(entries_of(a)) == shape(entries_of(b)),
        scan(a, start_model()) == scan(b, start_model()),
{
}

/// An encoded word after plain text and a folded line break is set off by
/// one space, as it is after a blank.
pub proof fn lemma_plain_fold_encoded(
    p: Seq<u8>,
    ws1: Seq<u8>,
    ws2: Seq<u8>,
    t: Seq<u8>,
    end: Seq<u8>,
)
    requires
        plain_core(p),
        all_spacing(ws1),
        ws2.len() > 0,
        is_blank(ws2[0]),
        folding_space(ws2),
        decode_word(t) is Some,
        decode_word(t)->Some_0.1 == t.len(),
        end == Seq::<u8>::empty() || end == seq![LF],
    ensures
        entries_of(p + ws1 + seq![LF] + ws2 + seq![EQUALS] + t + end) == seq![
            lossy_text(p) + space() + decode_word(t)->Some_0.0,
        ],
{
    let x = decode_word(t)->Some_0.0;
    let e = (Seq::<u8>::empty(), p, ws1);
    let after = seq![LF] + (ws2 + (seq![EQUALS] + t + end));
    assert(p + ws1 + seq![LF] + ws2 + seq![EQUALS] + t + end =~= entry_bytes(e) + after);
    lemma_scan_entry(Seq::empty(), e, after);
    assert(between_entries(Seq::empty()) == start_model());
    let st = fold_plain(between_entries(Seq::empty()), entry_bytes(e));
    assert(after.drop_first() =~= ws2 + (seq![EQUALS] + t + end));
    assert(after.drop_first()[0] == ws2[0]);
    let f = fold_word(st);
    assert(f.tokens =~= seq![lossy_text(p)]);
    assert(f.folded);
    assert(scan(after, st) == scan(ws2 + (seq![EQUALS] + t + end), f));
    lemma_scan_folding_space(ws2, seq![EQUALS] + t + end, f);
    lemma_scan_encoded(t, end, f);
    let g = push_decoded(f, x);
    assert(g.tokens =~= seq![lossy_text(p), space(), x]);
    if end.len() > 0 {
        assert(end.drop_first() =~= Seq::<u8>::empty());
    }
    lemma_concat_three(lossy_text(p), space(), x);
    assert(finish(g) =~= seq![lossy_text(p) + space() + x]);
}

/// An entry with no comma, where each line break is folded (a blank
/// follows it) and no `=` is followed by `?`: it holds no encoded word.
pub open spec fn simple_entry(e: Seq<u8>) -> bool {
    forall|i: int|
        0 <= i < e.len() ==> #[trigger] e[i] != COMMA && (e[i] == LF ==> i + 1 < e.len()
            && is_blank(e[i + 1])) && (e[i] == EQUALS ==> i + 1 >= e.len() || e[i + 1]
            != QUESTION)
}

/// Some byte that is neither spacing nor a line break.
pub open spec fn has_text(e: Seq<u8>) -> bool {
    exists|i: int| 0 <= i < e.len() && !is_spacing(#[trigger] e[i]) && e[i] != LF
}

pub open spec fn step_entry(st: ScanModel, b: u8) -> ScanModel {
    if b == LF {
        fold_word(st)
    } else {
        step_plain(st, b)
    }
}

pub open spec fn fold_entry(st: ScanModel, e: Seq<u8>) -> ScanModel
    decreases e.len(),
{
    if e.len() == 0 {
        st
    } else {
        fold_entry(step_entry(st, e[0]), e.drop_first())
    }
}

/// The text of one entry: its words, folded and joined.
pub open spec fn entry_text(e: Seq<u8>) -> Seq<char> {
    concat_all(flush_word(fold_entry(start_model(), e), false).tokens)
}

proof fn lemma_simple_entry_tail(e: Seq<u8>)
    requires
        simple_entry(e),
        e.len() > 0,
    ensures
        simple_entry(e.drop_first()),
{
    let t = e.drop_first();
    assert forall|i: int| 0 <= i < t.len() implies #[trigger] t[i] != COMMA && (t[i] == LF ==> i
        + 1 < t.len() && is_blank(t[i + 1])) && (t[i] == EQUALS ==> i + 1 >= t.len() || t[i + 1]
        != QUESTION) by {
        assert(t[i] == e[i + 1]);
        assert(e[i + 1] != COMMA);
        if i + 1 < t.len() {
            assert(t[i + 1] == e[i + 2]);
        }
    }
}

proof fn lemma_scan_simple(e: Seq<u8>, rest: Seq<u8>, st: ScanModel)
    requires
        simple_entry(e),
        rest.len() == 0 || rest[0] != QUESTION,
    ensures
        scan(e + rest, st) == scan(rest, fold_entry(st, e)),
    decreases e.len(),
{
    if e.len() == 0 {
        assert(e + rest =~= rest);
    } else {
        let s = e + rest;
        let tail = s.drop_first();
        assert(s[0] == e[0]);
        assert(tail =~= e.drop_first() + rest);
        assert(e[0] != COMMA);
        if e[0] == LF {
            assert(tail[0] == e[1]);
        }
        if e[0] == EQUALS {
            if e.len() > 1 {
                assert(tail[0] == e[1]);
            } else {
                assert(tail =~= rest);
            }
            assert(!opens_encoded_word(st, tail));
        }
        assert(scan(s, st) == scan(tail, step_entry(st, e[0])));
        lemma_simple_entry_tail(e);
        lemma_scan_simple(e.drop_first(), rest, step_entry(st, e[0]));
    }
}

/// Reading an entry does not look at the completed entries, nor change them.
proof fn lemma_fold_entry_list(st: ScanModel, e: Seq<u8>, list: Seq<Seq<char>>)
    ensures
        fold_entry(ScanModel { list, ..st }, e) == (ScanModel { list, ..fold_entry(st, e) }),
        fold_entry(st, e).list == st.list,
    decreases e.len(),
{
    if e.len() > 0 {
        let b = e[0];
        assert(step_entry(ScanModel { list, ..st }, b) == (ScanModel {
            list,
            ..step_entry(st, b)
        }));
        lemma_fold_entry_list(step_entry(st, b), e.drop_first(), list);
    }
}

/// Once the entry has a word or a piece, it keeps one.
proof fn lemma_fold_entry_keeps_text(st: ScanModel, e: Seq<u8>)
    requires
        st.word.len() > 0 || st.tokens.len() > 0,
    ensures
        fold_entry(st, e).word.len() > 0 || fold_entry(st, e).tokens.len() > 0,
    decreases e.len(),
{
    if e.len() > 0 {
        lemma_fold_entry_keeps_text(step_entry(st, e[0]), e.drop_first());
    }
}

proof fn lemma_fold_entry_has_text(st: ScanModel, e: Seq<u8>)
    requires
        idle(st),
        st.tokens.len() == 0,
        has_text(e),
    ensures
        fold_entry(st, e).word.len() > 0 || fold_entry(st, e).tokens.len() > 0,
    decreases e.len(),
{
    let b = e[0];
    let t = e.drop_first();
    if !is_spacing(b) && b != LF {
        lemma_fold_entry_keeps_text(step_entry(st, b), t);
    } else {
        assert(step_entry(st, b) == st);
        let i = choose|i: int| 0 <= i < e.len() && !is_spacing(#[trigger] e[i]) && e[i] != LF;
        assert(i > 0);
        assert(t[i - 1] == e[i]);
        assert(has_text(t));
        lemma_fold_entry_has_text(st, t);
    }
}

/// With no word open there is no gap, and the scan stands at a boundary.
pub open spec fn tidy(st: ScanModel) -> bool {
    st.word.len() == 0 ==> st.gap.len() == 0 && st.boundary
}

proof fn lemma_fold_entry_tidy(st: ScanModel, e: Seq<u8>)
    requires
        tidy(st),
    ensures
        tidy(fold_entry(st, e)),
    decreases e.len(),
{
    if e.len() > 0 {
        lemma_fold_entry_tidy(step_entry(st, e[0]), e.drop_first());
    }
}

/// An entry read between entries and closed: one more entry, its text.
proof fn lemma_close_entry(list: Seq<Seq<char>>, e: Seq<u8>)
    requires
        has_text(e),
    ensures
        flush_tokens(flush_word(fold_entry(between_entries(list), e), false)) == between_entries(
            list.push(entry_text(e)),
        ),
        finish(fold_entry(between_entries(list), e)) == list.push(entry_text(e)),
{
    let f0 = fold_entry(start_model(), e);
    lemma_fold_entry_list(start_model(), e, list);
    lemma_fold_entry_has_text(start_model(), e);
    assert(between_entries(list) == (ScanModel { list, ..start_model() }));
    let f = fold_entry(between_entries(list), e);
    assert(flush_word(f, false).tokens == flush_word(f0, false).tokens);
    lemma_fold_entry_tidy(between_entries(list), e);
    assert(flush_word(f, false).gap =~= Seq::<u8>::empty());
    assert(flush_word(f, false).word =~= Seq::<u8>::empty());
    assert(flush_word(f0, false).tokens.len() > 0);
}

/// One entry with no encoded word, where each line break is folded, and
/// with some text in it, is `Text` of its words, folded and joined.
pub proof fn lemma_single_entry_folded(e: Seq<u8>, end: Seq<u8>)
    requires
        simple_entry(e),
        has_text(e),
        end == Seq::<u8>::empty() || end == seq![LF],
    ensures
        entries_of(e + end) == seq![entry_text(e)],
        shape(entries_of(e + end)) == ValueModel::Text(entry_text(e)),
{
    lemma_scan_simple(e, end, start_model());
    assert(between_entries(Seq::empty()) == start_model());
    lemma_close_entry(Seq::empty(), e);
    if end.len() > 0 {
        assert(end.drop_first() =~= Seq::<u8>::empty());
    }
    assert(Seq::<Seq<char>>::empty().push(entry_text(e)) =~= seq![entry_text(e)]);
}

/// The entries written one after another, with a comma between two.
pub open spec fn join_with_commas(es: Seq<Seq<u8>>) -> Seq<u8>
    decreases es.len(),
{
    if es.len() <= 1 {
        if es.len() == 0 {
            Seq::empty()
        } else {
            es[0]
        }
    } else {
        es[0] + seq![COMMA] + join_with_commas(es.drop_first())
    }
}

proof fn lemma_scan_joined(list: Seq<Seq<char>>, es: Seq<Seq<u8>>, end: Seq<u8>)
    requires
        es.len() >= 1,
        forall|i: int| 0 <= i < es.len() ==> simple_entry(#[trigger] es[i]) && has_text(es[i]),
        end == Seq::<u8>::empty() || end == seq![LF],
    ensures
        scan(join_with_commas(es) + end, between_entries(list)).0 == list + es.map_values(
            |e: Seq<u8>| entry_text(e),
        ),
    decreases es.len(),
{
    let e = es[0];
    assert(simple_entry(e) && has_text(e));
    lemma_close_entry(list, e);
    if es.len() == 1 {
        lemma_scan_simple(e, end, between_entries(list));
        if end.len() > 0 {
            assert(end.drop_first() =~= Seq::<u8>::empty());
        }
        assert(list + es.map_values(|e: Seq<u8>| entry_text(e)) =~= list.push(entry_text(e)));
    } else {
        let rest = es.drop_first();
        let more = join_with_commas(rest) + end;
        assert(join_with_commas(es) + end =~= e + (seq![COMMA] + more));
        lemma_scan_simple(e, seq![COMMA] + more, between_entries(list));
        assert((seq![COMMA] + more).drop_first() =~= more);
        let list2 = list.push(entry_text(e));
        assert forall|i: int| 0 <= i < rest.len() implies simple_entry(#[trigger] rest[i])
            && has_text(rest[i]) by {
            assert(rest[i] == es[i + 1]);
        }
        lemma_scan_joined(list2, rest, end);
        assert(list2 + rest.map_values(|e: Seq<u8>| entry_text(e)) =~= list + es.map_values(
            |e: Seq<u8>| entry_text(e),
        ));
    }
}

/// Two or more entries with no encoded word, each with some text and each
/// line break folded, joined by commas, give a `TextList` with one element
/// for each, in order: the `Text` that the entry alone gives.
pub proof fn lemma_entry_list_folded(es: Seq<Seq<u8>>, end: Seq<u8>)
    requires
        es.len() >= 2,
        forall|i: int| 0 <= i < es.len() ==> simple_entry(#[trigger] es[i]) && has_text(es[i]),
        end == Seq::<u8>::empty() || end == seq![LF],
    ensures
        shape(entries_of(join_with_commas(es) + end)) == ValueModel::TextList(
            es.map_values(|e: Seq<u8>| entry_text(e)),
        ),
        forall|i: int|
            0 <= i < es.len() ==> shape(entries_of(#[trigger] es[i] + end)) == ValueModel::Text(
                entry_text(es[i]),
            ),
{
    lemma_scan_joined(Seq::empty(), es, end);
    assert(between_entries(Seq::empty()) == start_model());
    assert(Seq::<Seq<char>>::empty() + es.map_values(|e: Seq<u8>| entry_text(e)) =~= es.map_values(
        |e: Seq<u8>| entry_text(e),
    ));
    assert forall|i: int| 0 <= i < es.len() implies shape(entries_of(#[trigger] es[i] + end))
        == ValueModel::Text(entry_text(es[i])) by {
        assert(simple_entry(es[i]) && has_text(es[i]));
        lemma_single_entry_folded(es[i], end);
    }
}

} // verus!
