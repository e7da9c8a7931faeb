use vstd::prelude::*;
use vstd::string::StringExecFns;
use crate::error::ErrSpec;
use crate::error::ParseError;
use crate::error::errorize;
use crate::text::str_eq;
use crate::tokenizer::Tokenizer;
use crate::tokenizer::tokens_of;
use crate::tree::SexprTree;
use crate::tree::TreeSpec;
use crate::tree::lemma_tree_views_push;
use crate::tree::tree_views;

verus! {

broadcast use vstd::std_specs::vec::group_vec_axioms;

/// The open-delimiter token.
pub open spec fn open_tok() -> Seq<char> {
    seq!['(']
}

/// The close-delimiter token.
pub open spec fn close_tok() -> Seq<char> {
    seq![')']
}

/// The delimiter set the parser tokenizes with.
pub open spec fn parens() -> Seq<char> {
    seq!['(', ')']
}

/// Whether a token is one of the two delimiter tokens.
pub open spec fn is_delim(tok: Seq<char>) -> bool {
    tok == open_tok() || tok == close_tok()
}

/// The error a lookahead at `index` reports when the sequence holds only
/// `toks.len()` tokens.
pub open spec fn range_err(toks: Seq<Seq<char>>, index: int) -> ErrSpec {
    ErrSpec::OutOfRange { index, available: toks.len() as int }
}

/// One step of the recursive descent at position `i`, with `fuel` bounding
/// the nesting it may enter: an exhausted cursor yields an empty group, an
/// open delimiter starts a group, and any other token is one symbol. The
/// result carries the position after the consumed form.
pub open spec fn parse_one(toks: Seq<Seq<char>>, i: int, fuel: nat) -> Option<
    (Result<TreeSpec, ErrSpec>, int),
>
    decreases fuel, 0nat,
{
    if i == toks.len() {
        Some((Ok(TreeSpec::Sub(Seq::empty())), i))
    } else if !(0 <= i < toks.len()) {
        Some((Err(range_err(toks, i)), i))
    } else if toks[i] == open_tok() {
        if fuel == 0 {
            None
        } else {
            match parse_list(toks, i + 1, (fuel - 1) as nat) {
                None => None,
                Some((Ok(children), j)) => Some((Ok(TreeSpec::Sub(children)), j)),
                Some((Err(e), j)) => Some((Err(e), j)),
            }
        }
    } else {
        Some((Ok(TreeSpec::Sym(toks[i])), i + 1))
    }
}

/// The members of a group, read from position `p` up to and past the close
/// delimiter: exhaustion is the propagated lookahead failure, a close
/// delimiter ends the group, and otherwise one form is read and the rest of
/// the group follows it.
pub open spec fn parse_list(toks: Seq<Seq<char>>, p: int, fuel: nat) -> Option<
    (Result<Seq<TreeSpec>, ErrSpec>, int),
>
    decreases fuel, 1nat,
{
    if !(0 <= p < toks.len()) {
        Some((Err(range_err(toks, p)), p))
    } else if toks[p] == close_tok() {
        Some((Ok(Seq::empty()), p + 1))
    } else if fuel == 0 {
        None
    } else {
        match parse_one(toks, p, fuel) {
            None => None,
            Some((Err(e), j)) => Some((Err(e), j)),
            Some((Ok(t), j)) => match parse_list(toks, j, (fuel - 1) as nat) {
                None => None,
                Some((Err(e), k)) => Some((Err(e), k)),
                Some((Ok(rest), k)) => Some((Ok(seq![t] + rest), k)),
            },
        }
    }
}

/// Fuel that always suffices from position `i`.
pub open spec fn enough_fuel(toks: Seq<Seq<char>>, i: int) -> nat {
    (toks.len() - i + 1) as nat
}

/// The recursive descent at position `i`, run with enough fuel.
pub open spec fn parse_at(toks: Seq<Seq<char>>, i: int) -> (Result<TreeSpec, ErrSpec>, int) {
    match parse_one(toks, i, enough_fuel(toks, i)) {
        Some(x) => x,
        None => (Err(range_err(toks, i)), i),
    }
}

/// The group-member reading at position `p`, run with enough fuel.
pub open spec fn parse_list_at(toks: Seq<Seq<char>>, p: int) -> (
    Result<Seq<TreeSpec>, ErrSpec>,
    int,
) {
    match parse_list(toks, p, enough_fuel(toks, p)) {
        Some(x) => x,
        None => (Err(range_err(toks, p)), p),
    }
}

/// The whole parse of raw source text: tokenize with the parenthesis
/// delimiters, then read one form from position zero.
pub open spec fn parse_tree_spec(text: Seq<char>) -> Result<TreeSpec, ErrSpec> {
    parse_at(tokens_of(parens(), text), 0).0
}

/// Fuel beyond the first sufficient amount does not change the result.
pub proof fn lemma_mono_one(toks: Seq<Seq<char>>, i: int, f1: nat, f2: nat)
    requires
        f1 <= f2,
        parse_one(toks, i, f1) is Some,
    ensures
        parse_one(toks, i, f2) == parse_one(toks, i, f1),
    decreases f1, 0nat,
{
    if 0 <= i < toks.len() && toks[i] == open_tok() {
        lemma_mono_list(toks, i + 1, (f1 - 1) as nat, (f2 - 1) as nat);
    }
}

/// Fuel beyond the first sufficient amount does not change the result.
pub proof fn lemma_mono_list(toks: Seq<Seq<char>>, p: int, f1: nat, f2: nat)
    requires
        f1 <= f2,
        parse_list(toks, p, f1) is Some,
    ensures
        parse_list(toks, p, f2) == parse_list(toks, p, f1),
    decreases f1, 1nat,
{
    if 0 <= p < toks.len() && toks[p] != close_tok() {
        lemma_mono_one(toks, p, f1, f2);
        match parse_one(toks, p, f1) {
            None => {},
            Some((Err(_), _)) => {},
            Some((Ok(_), j)) => {
                lemma_mono_list(toks, j, (f1 - 1) as nat, (f2 - 1) as nat);
            },
        }
    }
}

/// With enough fuel the descent yields a result, whose position stays within
/// the sequence and moves strictly forward over any successful non-empty
/// form.
pub proof fn lemma_total_one(toks: Seq<Seq<char>>, i: int)
    requires
        0 <= i <= toks.len(),
    ensures
        parse_one(toks, i, enough_fuel(toks, i)) is Some,
        ({
            let (r, j) = parse_at(toks, i);
            i <= j <= toks.len() && (i < toks.len() && r is Ok ==> j > i)
        }),
    decreases toks.len() - i, 0nat,
{
    if i < toks.len() && toks[i] == open_tok() {
        lemma_total_list(toks, i + 1);
        lemma_mono_list(
            toks,
            i + 1,
            enough_fuel(toks, i + 1),
            (enough_fuel(toks, i) - 1) as nat,
        );
    }
}

/// With enough fuel the group reading yields a result, whose position stays
/// within the sequence and moves strictly forward.
pub proof fn lemma_total_list(toks: Seq<Seq<char>>, p: int)
    requires
        0 <= p <= toks.len(),
    ensures
        parse_list(toks, p, enough_fuel(toks, p)) is Some,
        ({
            let (r, k) = parse_list_at(toks, p);
            p <= k <= toks.len() && (r is Ok ==> k > p)
        }),
    decreases toks.len() - p, 1nat,
{
    if 0 <= p < toks.len() && toks[p] != close_tok() {
        lemma_total_one(toks, p);
        match parse_one(toks, p, enough_fuel(toks, p)) {
            None => {},
            Some((Err(_), _)) => {},
            Some((Ok(t), j)) => {
                lemma_total_list(toks, j);
                lemma_mono_list(toks, j, enough_fuel(toks, j), (enough_fuel(toks, p) - 1) as nat);
            },
        }
    }
}

/// At an exhausted cursor the parse yields an empty group in place.
pub proof fn lemma_at_end(toks: Seq<Seq<char>>)
    ensures
        parse_at(toks, toks.len() as int) == (
            Ok::<TreeSpec, ErrSpec>(TreeSpec::Sub(Seq::empty())),
            toks.len() as int,
        ),
{
}

/// At a non-delimiter token the parse yields that one symbol.
pub proof fn lemma_at_sym(toks: Seq<Seq<char>>, i: int)
    requires
        0 <= i < toks.len(),
        toks[i] != open_tok(),
    ensures
        parse_at(toks, i) == (Ok::<TreeSpec, ErrSpec>(TreeSpec::Sym(toks[i])), i + 1),
{
}

/// At an open delimiter the parse is the group reading just past it, its
/// members wrapped as a group.
pub proof fn lemma_at_open(toks: Seq<Seq<char>>, i: int)
    requires
        0 <= i < toks.len(),
        toks[i] == open_tok(),
    ensures
        ({
            let (r, j) = parse_list_at(toks, i + 1);
            parse_at(toks, i) == (
                match r {
                    Ok(children) => Ok::<TreeSpec, ErrSpec>(TreeSpec::Sub(children)),
                    Err(e) => Err::<TreeSpec, ErrSpec>(e),
                },
                j,
            )
        }),
{
    lemma_total_list(toks, i + 1);
    lemma_mono_list(toks, i + 1, enough_fuel(toks, i + 1), (enough_fuel(toks, i) - 1) as nat);
}

/// One unfolding of the group reading: exhaustion fails in place, a close
/// delimiter ends the group, and otherwise one form is read and the rest of
/// the group continues after it.
pub proof fn lemma_list_unfold(toks: Seq<Seq<char>>, p: int)
    requires
        0 <= p <= toks.len(),
    ensures
        p == toks.len() ==> parse_list_at(toks, p) == (
            Err::<Seq<TreeSpec>, ErrSpec>(range_err(toks, p)),
            p,
        ),
        p < toks.len() && toks[p] == close_tok() ==> parse_list_at(toks, p) == (
            Ok::<Seq<TreeSpec>, ErrSpec>(Seq::empty()),
            p + 1,
        ),
        p < toks.len() && toks[p] != close_tok() ==> ({
            let (r, j) = parse_at(toks, p);
            match r {
                Err(e) => parse_list_at(toks, p) == (Err::<Seq<TreeSpec>, ErrSpec>(e), j),
                Ok(t) => ({
                    let (r2, k) = parse_list_at(toks, j);
                    parse_list_at(toks, p) == (
                        match r2 {
                            Ok(rest) => Ok::<Seq<TreeSpec>, ErrSpec>(seq![t] + rest),
                            Err(e2) => Err::<Seq<TreeSpec>, ErrSpec>(e2),
                        },
                        k,
                    )
                }),
            }
        }),
{
    if p < toks.len() && toks[p] != close_tok() {
        lemma_total_one(toks, p);
        match parse_one(toks, p, enough_fuel(toks, p)) {
            None => {},
            Some((Err(_), _)) => {},
            Some((Ok(t), j)) => {
                lemma_total_list(toks, j);
                lemma_mono_list(toks, j, enough_fuel(toks, j), (enough_fuel(toks, p) - 1) as nat);
            },
        }
    }
}

/// The tokens a flat group extraction collects from position `p`: every
/// token before the next close delimiter, opaque, and the position past that
/// close delimiter; exhaustion before a close delimiter is the propagated
/// lookahead failure.
pub open spec fn snag_list(toks: Seq<Seq<char>>, p: int) -> (Result<Seq<Seq<char>>, ErrSpec>, int)
    decreases toks.len() - p,
{
    if !(0 <= p < toks.len()) {
        (Err(range_err(toks, p)), p)
    } else if toks[p] == close_tok() {
        (Ok(Seq::empty()), p + 1)
    } else {
        let rest = snag_list(toks, p + 1);
        match rest.0 {
            Ok(tail) => (Ok(seq![toks[p]] + tail), rest.1),
            Err(e) => rest,
        }
    }
}

/// A positional cursor over the token sequence of one source text: the
/// tokens, and a read position that only moves forward.
pub struct Parser {
    tokens: Vec<String>,
    i: usize,
}

impl Parser {
    /// The token sequence under the cursor.
    pub closed spec fn toks(&self) -> Seq<Seq<char>> {
        self.tokens.deep_view()
    }

    /// The current read position.
    pub closed spec fn pos(&self) -> int {
        self.i as int
    }

    /// A cursor at position zero over `src` tokenized with the parenthesis
    /// delimiters.
    pub fn new(src: &str) -> (p: Parser)
        ensures
            p.toks() == tokens_of(parens(), src@),
            p.pos() == 0,
    {
        proof {
            reveal_strlit("()");
            assert("()"@ =~= parens());
        }
        let mut tokenizer = Tokenizer::new("()");
        let tokens = tokenizer.tokenize(src);
        Parser { tokens, i: 0 }
    }

    /// Tokenizes `src` and reads one form from position zero.
    pub fn build_parse_tree(src: &str) -> (r: Result<SexprTree, ParseError>)
        ensures
            match r {
                Ok(t) => parse_tree_spec(src@) == Ok::<TreeSpec, ErrSpec>(t@),
                Err(e) => parse_tree_spec(src@) == Err::<TreeSpec, ErrSpec>(e@),
            },
    {
        let mut parser = Parser::new(src);
        parser.tree_help()
    }

    /// Reads one form at the current position, per `parse_at`, leaving the
    /// position just past what was consumed.
    fn tree_help(&mut self) -> (r: Result<SexprTree, ParseError>)
        requires
            old(self).pos() <= old(self).toks().len(),
        ensures
            final(self).toks() == old(self).toks(),
            ({
                let (pr, j) = parse_at(old(self).toks(), old(self).pos());
                final(self).pos() == j && (match r {
                    Ok(t) => pr == Ok::<TreeSpec, ErrSpec>(t@),
                    Err(e) => pr == Err::<TreeSpec, ErrSpec>(e@),
                })
            }),
    {
        let (r, j) = parse_rec(&self.tokens, self.i);
        self.i = j;
        r
    }

    /// True iff the position has reached the token count exactly.
    pub fn finished(&self) -> (r: bool)
        ensures
            r == (self.pos() == self.toks().len()),
    {
        self.i == self.tokens.len()
    }

    /// The current token, or the lookahead failure when the cursor is
    /// exhausted.
    pub fn token(&self) -> (r: Result<&str, ParseError>)
        ensures
            match r {
                Ok(s) => self.pos() < self.toks().len() && s@ == self.toks()[self.pos()],
                Err(e) => self.pos() >= self.toks().len() && e@ == range_err(
                    self.toks(),
                    self.pos(),
                ),
            },
    {
        self.lookahead(0)
    }

    /// The token `distance` places past the current one, without consuming;
    /// out of range, the failure reports the attempted index and the token
    /// count.
    pub fn lookahead(&self, distance: usize) -> (r: Result<&str, ParseError>)
        requires
            self.pos() + distance <= usize::MAX,
        ensures
            match r {
                Ok(s) => self.pos() + distance < self.toks().len() && s@ == self.toks()[self.pos()
                    + distance],
                Err(e) => self.pos() + distance >= self.toks().len() && e@ == range_err(
                    self.toks(),
                    self.pos() + distance,
                ),
            },
    {
        let index = self.i + distance;
        if index < self.tokens.len() {
            Ok(self.tokens[index].as_str())
        } else {
            errorize(ParseError::OutOfRange { index, available: self.tokens.len() })
        }
    }

    /// Consumes the current token when it equals `target_token`; otherwise
    /// reports what was expected, what was found, and where, and leaves the
    /// cursor unmoved.
    pub fn check(&mut self, target_token: &str) -> (r: Result<(), ParseError>)
        ensures
            final(self).toks() == old(self).toks(),
            ({
                let toks = old(self).toks();
                let i = old(self).pos();
                match r {
                    Ok(_) => i < toks.len() && toks[i] == target_token@ && final(self).pos() == i
                        + 1,
                    Err(e) => final(self).pos() == i && (if i >= toks.len() {
                        e@ == range_err(toks, i)
                    } else {
                        toks[i] != target_token@ && e@ == ErrSpec::UnexpectedToken {
                            expected: target_token@,
                            actual: toks[i],
                            position: i,
                        }
                    }),
                }
            }),
    {
        let matched = match self.token() {
            Ok(actual) => str_eq(actual, target_token),
            Err(e) => {
                return Err(e);
            },
        };
        if matched {
            proof {
                assert(vstd::std_specs::vec::spec_vec_len(&self.tokens) == self.tokens@.len());
            }
            self.advance();
            Ok(())
        } else {
            let actual = match self.token() {
                Ok(a) => String::from_str(a),
                Err(e) => {
                    return Err(e);
                },
            };
            errorize(
                ParseError::UnexpectedToken {
                    expected: String::from_str(target_token),
                    actual,
                    position: self.i,
                },
            )
        }
    }

    /// Moves the position forward by one, unconditionally.
    pub fn advance(&mut self)
        requires
            old(self).pos() + 1 <= usize::MAX,
        ensures
            final(self).toks() == old(self).toks(),
            final(self).pos() == old(self).pos() + 1,
    {
        self.advance_by(1);
    }

    /// Moves the position forward by `distance`, unconditionally, even past
    /// the end of the sequence.
    pub fn advance_by(&mut self, distance: usize)
        requires
            old(self).pos() + distance <= usize::MAX,
        ensures
            final(self).toks() == old(self).toks(),
            final(self).pos() == old(self).pos() + distance,
    {
        self.i = self.i + distance;
    }

    /// Whether the current token is the close delimiter; exhaustion is the
    /// propagated lookahead failure.
    pub fn at_close(&self) -> (r: Result<bool, ParseError>)
        ensures
            match r {
                Ok(b) => self.pos() < self.toks().len() && b == (self.toks()[self.pos()]
                    == close_tok()),
                Err(e) => self.pos() >= self.toks().len() && e@ == range_err(
                    self.toks(),
                    self.pos(),
                ),
            },
    {
        proof {
            reveal_strlit(")");
            assert(")"@ =~= close_tok());
        }
        match self.token() {
            Ok(s) => Ok(str_eq(s, ")")),
            Err(e) => Err(e),
        }
    }

    /// Expects an open delimiter, then collects every token before the next
    /// close delimiter as an opaque symbol (never descending into nested
    /// groups), consumes that close delimiter, and returns the collected
    /// symbols in order.
    #[verifier::loop_isolation(false)]
    pub fn snag_symbols(&mut self) -> (r: Result<Vec<String>, ParseError>)
        ensures
            final(self).toks() == old(self).toks(),
            ({
                let toks = old(self).toks();
                let i = old(self).pos();
                if i >= toks.len() {
                    final(self).pos() == i && (r matches Err(e) && e@ == range_err(toks, i))
                } else if toks[i] != open_tok() {
                    final(self).pos() == i && (r matches Err(e) && e@ == ErrSpec::UnexpectedToken {
                        expected: open_tok(),
                        actual: toks[i],
                        position: i,
                    })
                } else {
                    let (res, q) = snag_list(toks, i + 1);
                    final(self).pos() == q && (match r {
                        Ok(v) => res == Ok::<Seq<Seq<char>>, ErrSpec>(v.deep_view()),
                        Err(e) => res == Err::<Seq<Seq<char>>, ErrSpec>(e@),
                    })
                }
            }),
    {
        proof {
            reveal_strlit("(");
            assert("("@ =~= open_tok());
        }
        if let Err(e) = self.check("(") {
            return Err(e);
        }
        let ghost toks = self.toks();
        let ghost start = self.pos();
        let mut result: Vec<String> = Vec::new();
        proof {
            assert(result.deep_view() =~= Seq::<Seq<char>>::empty());
            match snag_list(toks, start).0 {
                Ok(tail) => {
                    assert(Seq::<Seq<char>>::empty() + tail =~= tail);
                },
                Err(_) => {},
            }
        }
        loop
            invariant
                self.toks() == toks,
                start <= self.pos() <= toks.len(),
                ({
                    let (now, k) = snag_list(toks, self.pos());
                    let (full, kf) = snag_list(toks, start);
                    kf == k && (match now {
                        Ok(tail) => full == Ok::<Seq<Seq<char>>, ErrSpec>(
                            result.deep_view() + tail,
                        ),
                        Err(e) => full == Err::<Seq<Seq<char>>, ErrSpec>(e),
                    })
                }),
            decreases toks.len() - self.pos(),
        {
            proof {
                reveal_strlit(")");
                assert(")"@ =~= close_tok());
            }
            let ghost pp = self.pos();
            let done = match self.at_close() {
                Ok(b) => b,
                Err(e) => {
                    return Err(e);
                },
            };
            if done {
                if let Err(e) = self.check(")") {
                    return Err(e);
                }
                proof {
                    assert(result.deep_view() + Seq::<Seq<char>>::empty() =~= result.deep_view());
                }
                return Ok(result);
            }
            let sym = match self.snag() {
                Ok(s) => s,
                Err(e) => {
                    return Err(e);
                },
            };
            let ghost pre = result;
            let ghost symg = sym;
            result.push(sym);
            proof {
                crate::text::lemma_push_deep_view(pre, result, symg);
                match snag_list(toks, pp + 1).0 {
                    Ok(tail) => {
                        assert(pre.deep_view() + (seq![symg@] + tail) =~= result.deep_view()
                            + tail);
                    },
                    Err(_) => {},
                }
            }
        }
    }

    /// Returns an owned copy of the current token and consumes it;
    /// exhaustion is the propagated lookahead failure.
    pub fn snag(&mut self) -> (r: Result<String, ParseError>)
        ensures
            final(self).toks() == old(self).toks(),
            ({
                let toks = old(self).toks();
                let i = old(self).pos();
                match r {
                    Ok(s) => i < toks.len() && s@ == toks[i] && final(self).pos() == i + 1,
                    Err(e) => final(self).pos() == i && i >= toks.len() && e@ == range_err(toks, i),
                }
            }),
    {
        let result = match self.token() {
            Ok(t) => String::from_str(t),
            Err(e) => {
                return Err(e);
            },
        };
        proof {
            assert(vstd::std_specs::vec::spec_vec_len(&self.tokens) == self.tokens@.len());
        }
        self.advance();
        Ok(result)
    }
}

/// Reads one form from `tokens` at position `i`, per `parse_at`, returning
/// the form and the position just past what was consumed.
#[verifier::loop_isolation(false)]
fn parse_rec(tokens: &Vec<String>, i: usize) -> (r: (Result<SexprTree, ParseError>, usize))
    requires
        i <= tokens@.len(),
    ensures
        ({
            let (pr, j) = parse_at(tokens.deep_view(), i as int);
            r.1 == j && i <= r.1 <= tokens@.len() && (match r.0 {
                Ok(t) => pr == Ok::<TreeSpec, ErrSpec>(t@),
                Err(e) => pr == Err::<TreeSpec, ErrSpec>(e@),
            })
        }),
    decreases tokens@.len() - i,
{
    let ghost toks = tokens.deep_view();
    proof {
        reveal_strlit("(");
        reveal_strlit(")");
        assert("("@ =~= open_tok());
        assert(")"@ =~= close_tok());
    }
    let n = tokens.len();
    if i == n {
        proof {
            lemma_at_end(toks);
        }
        return (Ok(SexprTree::Sub(Vec::new())), i);
    }
    if str_eq(tokens[i].as_str(), "(") {
        proof {
            lemma_at_open(toks, i as int);
        }
        let mut parts: Vec<SexprTree> = Vec::new();
        let mut p = i + 1;
        proof {
            assert(tree_views(parts@) =~= Seq::<TreeSpec>::empty());
            match parse_list_at(toks, i + 1).0 {
                Ok(rest) => {
                    assert(Seq::<TreeSpec>::empty() + rest =~= rest);
                },
                Err(_) => {},
            }
        }
        loop
            invariant
                i + 1 <= p <= n,
                ({
                    let (now, k) = parse_list_at(toks, p as int);
                    let (full, kf) = parse_list_at(toks, i + 1);
                    kf == k && (match now {
                        Ok(rest) => full == Ok::<Seq<TreeSpec>, ErrSpec>(
                            tree_views(parts@) + rest,
                        ),
                        Err(e) => full == Err::<Seq<TreeSpec>, ErrSpec>(e),
                    })
                }),
            decreases n - p,
        {
            proof {
                lemma_list_unfold(toks, p as int);
            }
            if p == n {
                return (Err(ParseError::OutOfRange { index: p, available: n }), p);
            }
            if str_eq(tokens[p].as_str(), ")") {
                proof {
                    assert(tree_views(parts@) + Seq::<TreeSpec>::empty() =~= tree_views(parts@));
                }
                return (Ok(SexprTree::Sub(parts)), p + 1);
            }
            proof {
                lemma_total_one(toks, p as int);
            }
            let (cr, q) = parse_rec(tokens, p);
            match cr {
                Err(e) => {
                    return (Err(e), q);
                },
                Ok(t) => {
                    let ghost pre = parts;
                    let ghost tg = t;
                    parts.push(t);
                    proof {
                        lemma_tree_views_push(pre@, tg);
                        match parse_list_at(toks, q as int).0 {
                            Ok(rest) => {
                                assert(tree_views(pre@) + (seq![tg@] + rest) =~= tree_views(parts@)
                                    + rest);
                            },
                            Err(_) => {},
                        }
                    }
                    p = q;
                },
            }
        }
    } else {
        proof {
            lemma_at_sym(toks, i as int);
        }
        let s = tokens[i].clone();
        (Ok(SexprTree::Sym(s)), i + 1)
    }
}

} // verus!
