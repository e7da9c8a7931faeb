use vstd::prelude::*;
use crate::error::ErrSpec;
use crate::parser::close_tok;
use crate::parser::lemma_at_open;
use crate::parser::lemma_list_unfold;
use crate::parser::lemma_total_list;
use crate::parser::lemma_total_one;
use crate::parser::open_tok;
use crate::parser::parens;
use crate::parser::parse_at;
use crate::parser::parse_list_at;
use crate::parser::parse_tree_spec;
use crate::parser::is_delim;
use crate::text::is_ws;
use crate::text::lower_of;
use crate::tokenizer::flush;
use crate::tokenizer::scan;
use crate::tokenizer::scan_step;
use crate::tokenizer::tokens_of;
use crate::tree::TreeSpec;
use crate::tree::flat_list;
use crate::tree::flat_spec;
use crate::tree::lemma_flat_list_add;

verus! {

broadcast use vstd::seq_lib::group_seq_lib_default;

/// The non-delimiter tokens of a sequence, in order.
pub open spec fn sym_toks(toks: Seq<Seq<char>>) -> Seq<Seq<char>> {
    toks.filter(|tok: Seq<char>| !is_delim(tok))
}

proof fn lemma_sym_toks_empty()
    ensures
        sym_toks(Seq::empty()) == Seq::<Seq<char>>::empty(),
{
    reveal_with_fuel(Seq::filter, 2);
}

proof fn lemma_sym_toks_one(tok: Seq<char>)
    ensures
        !is_delim(tok) ==> sym_toks(seq![tok]) == seq![tok],
        is_delim(tok) ==> sym_toks(seq![tok]) == Seq::<Seq<char>>::empty(),
{
    reveal_with_fuel(Seq::filter, 3);
    assert(seq![tok].drop_last() =~= Seq::<Seq<char>>::empty());
    assert(seq![tok].last() == tok);
    if !is_delim(tok) {
        assert(sym_toks(seq![tok]) =~= seq![tok]);
    }
}

/// Reading one form from `i` to `j` collects, as the flattened symbols of
/// the form, exactly the non-delimiter tokens it consumed, in order.
proof fn lemma_flat_one(toks: Seq<Seq<char>>, i: int, t: TreeSpec, j: int)
    requires
        0 <= i <= toks.len(),
        parse_at(toks, i) == (Ok::<TreeSpec, ErrSpec>(t), j),
        i < toks.len() ==> toks[i] != close_tok(),
    ensures
        i <= j <= toks.len(),
        flat_spec(t) == sym_toks(toks.subrange(i, j)),
    decreases toks.len() - i, 0nat,
{
    lemma_total_one(toks, i);
    if i == toks.len() {
        assert(toks.subrange(i, j) =~= Seq::<Seq<char>>::empty());
        lemma_sym_toks_empty();
    } else if toks[i] == open_tok() {
        lemma_at_open(toks, i);
        let (lr, k) = parse_list_at(toks, i + 1);
        match lr {
            Ok(cs) => {
                lemma_flat_list(toks, i + 1, cs, j);
                assert(toks.subrange(i, j) =~= seq![open_tok()] + toks.subrange(i + 1, j));
                lemma_sym_toks_one(open_tok());
                assert(sym_toks(seq![open_tok()] + toks.subrange(i + 1, j)) == sym_toks(
                    seq![open_tok()],
                ) + sym_toks(toks.subrange(i + 1, j)));
                assert(Seq::<Seq<char>>::empty() + sym_toks(toks.subrange(i + 1, j)) =~= sym_toks(
                    toks.subrange(i + 1, j),
                ));
            },
            Err(_) => {},
        }
    } else {
        assert(toks.subrange(i, j) =~= seq![toks[i]]);
        lemma_sym_toks_one(toks[i]);
    }
}

/// Reading group members from `p` to `k` collects, as their flattened
/// symbols, exactly the non-delimiter tokens consumed, in order; the close
/// delimiter consumed last contributes nothing.
proof fn lemma_flat_list(toks: Seq<Seq<char>>, p: int, cs: Seq<TreeSpec>, k: int)
    requires
        0 <= p <= toks.len(),
        parse_list_at(toks, p) == (Ok::<Seq<TreeSpec>, ErrSpec>(cs), k),
    ensures
        p <= k <= toks.len(),
        flat_list(cs) == sym_toks(toks.subrange(p, k)),
    decreases toks.len() - p, 1nat,
{
    lemma_total_list(toks, p);
    lemma_list_unfold(toks, p);
    if p == toks.len() {
        // the group reading fails there, against the requires
    } else if toks[p] == close_tok() {
        assert(toks.subrange(p, k) =~= seq![close_tok()]);
        lemma_sym_toks_one(close_tok());
    } else {
        let (r, j) = parse_at(toks, p);
        match r {
            Ok(t0) => {
                let (r2, k2) = parse_list_at(toks, j);
                match r2 {
                    Ok(rest) => {
                        lemma_flat_one(toks, p, t0, j);
                        lemma_flat_list(toks, j, rest, k2);
                        assert(toks.subrange(p, k) =~= toks.subrange(p, j) + toks.subrange(j, k));
                        assert(sym_toks(toks.subrange(p, j) + toks.subrange(j, k)) == sym_toks(
                            toks.subrange(p, j),
                        ) + sym_toks(toks.subrange(j, k)));
                        lemma_flat_list_add(seq![t0], rest);
                        assert(seq![t0].drop_first() =~= Seq::<TreeSpec>::empty());
                        assert(flat_list(Seq::<TreeSpec>::empty()) == Seq::<Seq<char>>::empty());
                        assert(flat_spec(t0) + Seq::<Seq<char>>::empty() =~= flat_spec(t0));
                        assert(flat_list(seq![t0]) =~= flat_spec(t0));
                    },
                    Err(_) => {},
                }
            },
            Err(_) => {},
        }
    }
}

/// Law: when the whole token sequence of a text parses as one form, the
/// flattened symbols of that form are exactly the text's non-delimiter
/// tokens, in order. The two provisos keep out the inputs on which the
/// entry point deliberately stops early: text whose first token is a close
/// delimiter parses as that one symbol, and text with trailing tokens after
/// the first form leaves them unread.
pub proof fn lemma_flatten_lists_symbol_tokens(text: Seq<char>, t: TreeSpec)
    requires
        ({
            let toks = tokens_of(parens(), text);
            parse_at(toks, 0) == (Ok::<TreeSpec, ErrSpec>(t), toks.len() as int) && (toks.len() > 0
                ==> toks[0] != close_tok())
        }),
    ensures
        flat_spec(t) == sym_toks(tokens_of(parens(), text)),
{
    let toks = tokens_of(parens(), text);
    lemma_flat_one(toks, 0, t, toks.len() as int);
    assert(toks.subrange(0, toks.len() as int) =~= toks);
}

/// Scanning a concatenation scans the first part, then the second from the
/// state the first left behind.
proof fn lemma_scan_concat(
    symbols: Seq<char>,
    tokens: Seq<Seq<char>>,
    pending: Seq<char>,
    a: Seq<char>,
    b: Seq<char>,
)
    ensures
        scan(symbols, tokens, pending, a + b) == ({
            let st = scan(symbols, tokens, pending, a);
            scan(symbols, st.0, st.1, b)
        }),
    decreases a.len(),
{
    if a.len() == 0 {
        assert(a + b =~= b);
    } else {
        let st = scan_step(symbols, tokens, pending, a[0]);
        assert((a + b).len() > 0);
        assert((a + b)[0] == a[0]);
        assert((a + b).skip(1) =~= a.skip(1) + b);
        lemma_scan_concat(symbols, st.0, st.1, a.skip(1), b);
    }
}

/// A run of whitespace, none of it in the delimiter set, leaves an
/// empty-pending scan state exactly where it was.
proof fn lemma_scan_ws(symbols: Seq<char>, tokens: Seq<Seq<char>>, ws: Seq<char>)
    requires
        forall|k: int| 0 <= k < ws.len() ==> is_ws(#[trigger] ws[k]) && !symbols.contains(ws[k]),
    ensures
        scan(symbols, tokens, Seq::empty(), ws) == (tokens, Seq::<char>::empty()),
    decreases ws.len(),
{
    if ws.len() > 0 {
        assert(is_ws(ws[0]));
        assert(forall|k: int|
            0 <= k < ws.skip(1).len() ==> is_ws(#[trigger] ws.skip(1)[k]) && !symbols.contains(
                ws.skip(1)[k],
            ));
        lemma_scan_ws(symbols, tokens, ws.skip(1));
    }
}

/// Law (whitespace-insensitivity): inserting a run of whitespace characters
/// at a token boundary (at the very start of the text, or right after a
/// whitespace or delimiter character) does not change the token sequence.
pub proof fn lemma_whitespace_insensitive(
    symbols: Seq<char>,
    prefix: Seq<char>,
    ws: Seq<char>,
    suffix: Seq<char>,
)
    requires
        forall|k: int| 0 <= k < ws.len() ==> is_ws(#[trigger] ws[k]) && !symbols.contains(ws[k]),
        prefix.len() == 0 || is_ws(prefix.last()) || symbols.contains(prefix.last()),
    ensures
        tokens_of(symbols, prefix + ws + suffix) == tokens_of(symbols, prefix + suffix),
{
    let empty_toks = Seq::<Seq<char>>::empty();
    let empty_pend = Seq::<char>::empty();
    let a = scan(symbols, empty_toks, empty_pend, prefix);
    if prefix.len() > 0 {
        assert(prefix =~= prefix.drop_last() + seq![prefix.last()]);
        lemma_scan_concat(symbols, empty_toks, empty_pend, prefix.drop_last(), seq![prefix.last()]);
        let mid = scan(symbols, empty_toks, empty_pend, prefix.drop_last());
        let st = scan_step(symbols, mid.0, mid.1, prefix.last());
        assert(seq![prefix.last()][0] == prefix.last());
        assert(seq![prefix.last()].skip(1) =~= Seq::<char>::empty());
        assert(scan(symbols, mid.0, mid.1, seq![prefix.last()]) == scan(
            symbols,
            st.0,
            st.1,
            seq![prefix.last()].skip(1),
        ));
        assert(scan(symbols, st.0, st.1, Seq::<char>::empty()) == st);
        assert(st.1 == empty_pend);
        assert(a == st);
    }
    assert(a.1 == empty_pend);
    lemma_scan_concat(symbols, empty_toks, empty_pend, prefix + ws, suffix);
    lemma_scan_concat(symbols, empty_toks, empty_pend, prefix, ws);
    lemma_scan_ws(symbols, a.0, ws);
    assert(scan(symbols, empty_toks, empty_pend, prefix + ws) == a);
    lemma_scan_concat(symbols, empty_toks, empty_pend, prefix, suffix);
    assert(scan(symbols, empty_toks, empty_pend, (prefix + ws) + suffix) == scan(
        symbols,
        empty_toks,
        empty_pend,
        prefix + suffix,
    ));
}

/// A symbol that survives re-tokenizing unchanged: non-empty, free of
/// whitespace and delimiter characters, and already in its lowercase form.
pub open spec fn sym_ok(s: Seq<char>) -> bool {
    s.len() > 0 && (forall|k: int|
        0 <= k < s.len() ==> !is_ws(#[trigger] s[k]) && !parens().contains(s[k])) && lower_of(s)
        == s
}

/// A tree all of whose symbols survive re-tokenizing unchanged.
pub open spec fn wf_tree(t: TreeSpec) -> bool
    decreases t,
{
    match t {
        TreeSpec::Sym(s) => sym_ok(s),
        TreeSpec::Sub(v) => forall|k: int| 0 <= k < v.len() ==> wf_tree(#[trigger] v[k]),
    }
}

/// The token sequence a tree prints as: its symbols and delimiters in order.
pub open spec fn tree_toks(t: TreeSpec) -> Seq<Seq<char>>
    decreases t, 0nat,
{
    match t {
        TreeSpec::Sym(s) => seq![s],
        TreeSpec::Sub(v) => seq![open_tok()] + tree_toks_list(v) + seq![close_tok()],
    }
}

/// The printed tokens of a sequence of trees, in order.
pub open spec fn tree_toks_list(v: Seq<TreeSpec>) -> Seq<Seq<char>>
    decreases v, 1nat,
{
    if v.len() == 0 {
        Seq::empty()
    } else {
        tree_toks(v[0]) + tree_toks_list(v.drop_first())
    }
}

/// The canonical text of a tree: a symbol's own text, or the children's
/// texts joined by single spaces between an open and a close delimiter.
pub open spec fn ser(t: TreeSpec) -> Seq<char>
    decreases t, 0nat,
{
    match t {
        TreeSpec::Sym(s) => s,
        TreeSpec::Sub(v) => seq!['('] + ser_list(v) + seq![')'],
    }
}

/// The canonical texts of a sequence of trees, joined by single spaces.
pub open spec fn ser_list(v: Seq<TreeSpec>) -> Seq<char>
    decreases v, 1nat,
{
    if v.len() == 0 {
        Seq::empty()
    } else if v.len() == 1 {
        ser(v[0])
    } else {
        ser(v[0]) + seq![' '] + ser_list(v.drop_first())
    }
}

/// The delimiter set of the parser holds exactly the two parentheses.
proof fn lemma_parens_chars()
    ensures
        parens().contains('('),
        parens().contains(')'),
        !parens().contains(' '),
        open_tok() != close_tok(),
{
    assert(parens()[0] == '(');
    assert(parens()[1] == ')');
    assert(forall|j: int| 0 <= j < parens().len() ==> parens()[j] != ' ');
    assert(open_tok()[0] != close_tok()[0]);
}

/// Scanning a run of plain characters only extends the pending accumulator.
proof fn lemma_scan_run(tokens: Seq<Seq<char>>, pending: Seq<char>, s: Seq<char>)
    requires
        forall|k: int| 0 <= k < s.len() ==> !is_ws(#[trigger] s[k]) && !parens().contains(s[k]),
    ensures
        scan(parens(), tokens, pending, s) == (tokens, pending + s),
    decreases s.len(),
{
    if s.len() == 0 {
        assert(pending + s =~= pending);
    } else {
        assert(forall|k: int|
            0 <= k < s.skip(1).len() ==> !is_ws(#[trigger] s.skip(1)[k]) && !parens().contains(
                s.skip(1)[k],
            ));
        lemma_scan_run(tokens, pending.push(s[0]), s.skip(1));
        assert(pending.push(s[0]) + s.skip(1) =~= pending + s);
    }
}

/// Scanning a tree's canonical text from an empty pending state yields,
/// once flushed, exactly the tree's printed tokens appended.
proof fn lemma_scan_ser(tokens: Seq<Seq<char>>, t: TreeSpec)
    requires
        wf_tree(t),
    ensures
        ({
            let st = scan(parens(), tokens, Seq::empty(), ser(t));
            flush(st.0, st.1) == tokens + tree_toks(t)
        }),
    decreases t, 0nat,
{
    lemma_parens_chars();
    match t {
        TreeSpec::Sym(s) => {
            lemma_scan_run(tokens, Seq::empty(), s);
            assert(Seq::<char>::empty() + s =~= s);
            assert(flush(tokens, s) == tokens.push(lower_of(s)));
            assert(tokens.push(s) =~= tokens + seq![s]);
        },
        TreeSpec::Sub(v) => {
            let empty_pend = Seq::<char>::empty();
            let body = ser_list(v);
            assert(ser(t) =~= seq!['('] + (body + seq![')']));
            lemma_scan_concat(parens(), tokens, empty_pend, seq!['('], body + seq![')']);
            assert(seq!['('][0] == '(');
            assert(seq!['('].skip(1) =~= Seq::<char>::empty());
            let stp = scan_step(parens(), tokens, empty_pend, '(');
            assert(stp == (tokens.push(open_tok()), empty_pend));
            assert(scan(parens(), tokens, empty_pend, seq!['(']) == scan(
                parens(),
                stp.0,
                stp.1,
                seq!['('].skip(1),
            ));
            assert(scan(parens(), stp.0, stp.1, Seq::<char>::empty()) == stp);
            let t0 = tokens.push(open_tok());
            lemma_scan_concat(parens(), t0, empty_pend, body, seq![')']);
            let st1 = scan(parens(), t0, empty_pend, body);
            lemma_scan_ser_list(t0, v);
            assert(seq![')'][0] == ')');
            assert(seq![')'].skip(1) =~= Seq::<char>::empty());
            let stc = scan_step(parens(), st1.0, st1.1, ')');
            assert(stc == (flush(st1.0, st1.1).push(close_tok()), empty_pend));
            assert(scan(parens(), st1.0, st1.1, seq![')']) == scan(
                parens(),
                stc.0,
                stc.1,
                seq![')'].skip(1),
            ));
            assert(scan(parens(), stc.0, stc.1, Seq::<char>::empty()) == stc);
            assert(flush(st1.0, st1.1).push(close_tok()) =~= tokens + tree_toks(t));
        },
    }
}

/// Scanning the space-joined canonical texts of a sequence of trees from an
/// empty pending state yields, once flushed, their printed tokens appended.
proof fn lemma_scan_ser_list(tokens: Seq<Seq<char>>, v: Seq<TreeSpec>)
    requires
        forall|k: int| 0 <= k < v.len() ==> wf_tree(#[trigger] v[k]),
    ensures
        ({
            let st = scan(parens(), tokens, Seq::empty(), ser_list(v));
            flush(st.0, st.1) == tokens + tree_toks_list(v)
        }),
    decreases v, 1nat,
{
    lemma_parens_chars();
    let empty_pend = Seq::<char>::empty();
    if v.len() == 0 {
        assert(tokens + tree_toks_list(v) =~= tokens);
    } else if v.len() == 1 {
        lemma_scan_ser(tokens, v[0]);
        assert(tree_toks_list(v.drop_first()) == Seq::<Seq<char>>::empty());
        assert(tokens + tree_toks(v[0]) =~= tokens + tree_toks_list(v));
    } else {
        assert(ser_list(v) =~= ser(v[0]) + (seq![' '] + ser_list(v.drop_first())));
        lemma_scan_concat(
            parens(),
            tokens,
            empty_pend,
            ser(v[0]),
            seq![' '] + ser_list(v.drop_first()),
        );
        let st0 = scan(parens(), tokens, empty_pend, ser(v[0]));
        lemma_scan_ser(tokens, v[0]);
        assert((seq![' '] + ser_list(v.drop_first()))[0] == ' ');
        assert((seq![' '] + ser_list(v.drop_first())).skip(1) =~= ser_list(v.drop_first()));
        assert(scan_step(parens(), st0.0, st0.1, ' ') == (flush(st0.0, st0.1), empty_pend));
        let t1 = flush(st0.0, st0.1);
        assert(forall|k: int|
            0 <= k < v.drop_first().len() ==> wf_tree(#[trigger] v.drop_first()[k]));
        lemma_scan_ser_list(t1, v.drop_first());
        assert((tokens + tree_toks(v[0])) + tree_toks_list(v.drop_first()) =~= tokens
            + tree_toks_list(v));
    }
}

/// A printed token sequence is never empty and never starts with the close
/// delimiter.
proof fn lemma_tree_toks_first(t: TreeSpec)
    requires
        wf_tree(t),
    ensures
        tree_toks(t).len() >= 1,
        tree_toks(t)[0] != close_tok(),
        t matches TreeSpec::Sym(s) ==> tree_toks(t)[0] != open_tok(),
{
    lemma_parens_chars();
    match t {
        TreeSpec::Sym(s) => {
            if s == close_tok() {
                assert(s[0] == ')');
            }
            if s == open_tok() {
                assert(s[0] == '(');
            }
        },
        TreeSpec::Sub(_) => {
            assert(tree_toks(t)[0] == open_tok());
        },
    }
}

/// Reading one form at the start of a tree's printed tokens yields back
/// exactly that tree and consumes exactly its tokens.
proof fn lemma_parse_tree_toks(toks: Seq<Seq<char>>, i: int, t: TreeSpec)
    requires
        wf_tree(t),
        0 <= i,
        i + tree_toks(t).len() <= toks.len(),
        toks.subrange(i, i + tree_toks(t).len() as int) == tree_toks(t),
    ensures
        parse_at(toks, i) == (Ok::<TreeSpec, ErrSpec>(t), i + tree_toks(t).len()),
    decreases t, 0nat,
{
    lemma_parens_chars();
    lemma_tree_toks_first(t);
    match t {
        TreeSpec::Sym(s) => {
            assert(toks[i] == tree_toks(t)[0]);
            crate::parser::lemma_at_sym(toks, i);
        },
        TreeSpec::Sub(v) => {
            let body = tree_toks_list(v);
            assert(toks[i] == tree_toks(t)[0]);
            assert(tree_toks(t)[0] == open_tok());
            assert(tree_toks(t).len() == body.len() + 2);
            assert(forall|k: int|
                0 <= k < body.len() ==> toks.subrange(
                    i,
                    i + tree_toks(t).len() as int,
                )[k + 1] == #[trigger] body[k]);
            assert(toks.subrange(i + 1, i + 1 + body.len() as int) =~= body);
            assert(toks[i + 1 + body.len()] == tree_toks(t)[body.len() as int + 1]);
            assert(tree_toks(t)[body.len() as int + 1] == close_tok());
            lemma_parse_toks_list(toks, i + 1, v);
            lemma_at_open(toks, i);
        },
    }
}

/// Reading group members at the start of a sequence's printed tokens, with
/// the close delimiter right after them, yields back exactly that sequence
/// and stops just past the close delimiter.
proof fn lemma_parse_toks_list(toks: Seq<Seq<char>>, p: int, v: Seq<TreeSpec>)
    requires
        forall|k: int| 0 <= k < v.len() ==> wf_tree(#[trigger] v[k]),
        0 <= p,
        p + tree_toks_list(v).len() < toks.len(),
        toks.subrange(p, p + tree_toks_list(v).len() as int) == tree_toks_list(v),
        toks[p + tree_toks_list(v).len()] == close_tok(),
    ensures
        parse_list_at(toks, p) == (Ok::<Seq<TreeSpec>, ErrSpec>(v), p + tree_toks_list(v).len()
            + 1),
    decreases v, 1nat,
{
    lemma_parens_chars();
    lemma_list_unfold(toks, p);
    if v.len() == 0 {
        assert(toks[p] == close_tok());
        assert(v =~= Seq::<TreeSpec>::empty());
    } else {
        let t0 = v[0];
        let rest = v.drop_first();
        let body = tree_toks_list(v);
        let l0 = tree_toks(t0).len() as int;
        lemma_tree_toks_first(t0);
        assert(body =~= tree_toks(t0) + tree_toks_list(rest));
        assert(forall|k: int|
            0 <= k < body.len() ==> toks[p + k] == #[trigger] body[k]);
        assert(toks[p] == body[0]);
        assert(body[0] == tree_toks(t0)[0]);
        assert(toks[p] != close_tok());
        assert(toks.subrange(p, p + l0) =~= tree_toks(t0));
        lemma_parse_tree_toks(toks, p, t0);
        assert forall|m: int| 0 <= m < tree_toks_list(rest).len() implies toks.subrange(
            p + l0,
            p + l0 + tree_toks_list(rest).len() as int,
        )[m] == tree_toks_list(rest)[m] by {
            assert(body[l0 + m] == tree_toks_list(rest)[m]);
            assert(toks[p + l0 + m] == body[l0 + m]);
        }
        assert(toks.subrange(p + l0, p + l0 + tree_toks_list(rest).len() as int) =~= tree_toks_list(
            rest,
        ));
        assert(toks[p + l0 + tree_toks_list(rest).len()] == close_tok());
        assert(forall|k: int| 0 <= k < rest.len() ==> wf_tree(#[trigger] rest[k]));
        lemma_parse_toks_list(toks, p + l0, rest);
        assert(seq![t0] + rest =~= v);
    }
}

/// Law (round trip): a tree whose symbols are tokenizer-stable prints to a
/// canonical text that tokenizes to exactly the tree's own tokens and
/// parses back to exactly the tree, with the whole text consumed.
pub proof fn lemma_round_trip(t: TreeSpec)
    requires
        wf_tree(t),
    ensures
        tokens_of(parens(), ser(t)) == tree_toks(t),
        parse_at(tree_toks(t), 0) == (Ok::<TreeSpec, ErrSpec>(t), tree_toks(t).len() as int),
        parse_tree_spec(ser(t)) == Ok::<TreeSpec, ErrSpec>(t),
{
    lemma_scan_ser(Seq::empty(), t);
    assert(Seq::<Seq<char>>::empty() + tree_toks(t) =~= tree_toks(t));
    lemma_tree_toks_first(t);
    assert(tree_toks(t).subrange(0, tree_toks(t).len() as int) =~= tree_toks(t));
    lemma_parse_tree_toks(tree_toks(t), 0, t);
}

/// Law: a whitespace run inserted at a token boundary does not change the
/// parsed tree either, the parse being a function of the tokens alone.
pub proof fn lemma_parse_whitespace_insensitive(prefix: Seq<char>, ws: Seq<char>, suffix: Seq<char>)
    requires
        forall|k: int| 0 <= k < ws.len() ==> is_ws(#[trigger] ws[k]) && !parens().contains(ws[k]),
        prefix.len() == 0 || is_ws(prefix.last()) || parens().contains(prefix.last()),
    ensures
        parse_tree_spec(prefix + ws + suffix) == parse_tree_spec(prefix + suffix),
{
    lemma_whitespace_insensitive(parens(), prefix, ws, suffix);
}

} // verus!
