use vstd::prelude::*;
use vstd::string::StrSliceExecFns;
use crate::text::char_string;
use crate::text::is_whitespace_char;
use crate::text::is_ws;
use crate::text::lemma_push_deep_view;
use crate::text::lower_of;
use crate::text::lower_string;
use crate::text::vec_contains_char;

verus! {

/// Splits raw text into tokens around a configurable set of single-character
/// delimiters: a delimiter always becomes its own one-character token, a
/// whitespace character separates tokens and is discarded, and every other
/// maximal run of characters becomes one token, folded to lowercase.
pub struct Tokenizer {
    pending: Vec<char>,
    symbols: Vec<char>,
}

/// The accumulator flushed: a non-empty pending run is appended as one
/// lowercased token; an empty run adds nothing.
pub open spec fn flush(tokens: Seq<Seq<char>>, pending: Seq<char>) -> Seq<Seq<char>> {
    if pending.len() > 0 {
        tokens.push(lower_of(pending))
    } else {
        tokens
    }
}

/// One character of the scan: a delimiter flushes and is emitted verbatim, a
/// whitespace character flushes and is discarded, anything else joins the
/// pending run.
pub open spec fn scan_step(
    symbols: Seq<char>,
    tokens: Seq<Seq<char>>,
    pending: Seq<char>,
    c: char,
) -> (Seq<Seq<char>>, Seq<char>) {
    if symbols.contains(c) {
        (flush(tokens, pending).push(seq![c]), Seq::empty())
    } else if is_ws(c) {
        (flush(tokens, pending), Seq::empty())
    } else {
        (tokens, pending.push(c))
    }
}

/// The scan state after reading all of `text`, starting from the given
/// emitted tokens and pending run.
pub open spec fn scan(
    symbols: Seq<char>,
    tokens: Seq<Seq<char>>,
    pending: Seq<char>,
    text: Seq<char>,
) -> (Seq<Seq<char>>, Seq<char>)
    decreases text.len(),
{
    if text.len() == 0 {
        (tokens, pending)
    } else {
        let st = scan_step(symbols, tokens, pending, text[0]);
        scan(symbols, st.0, st.1, text.skip(1))
    }
}

/// The tokens of `text` under the given delimiter set: a full scan from an
/// empty state, with a final flush.
pub open spec fn tokens_of(symbols: Seq<char>, text: Seq<char>) -> Seq<Seq<char>> {
    let st = scan(symbols, Seq::empty(), Seq::empty(), text);
    flush(st.0, st.1)
}

impl Tokenizer {
    /// The delimiter characters.
    pub closed spec fn symbols(&self) -> Seq<char> {
        self.symbols@
    }

    /// The pending (not yet flushed) run of token characters.
    pub closed spec fn pending(&self) -> Seq<char> {
        self.pending@
    }

    /// A tokenizer whose delimiter set holds the characters of `symbols`.
    pub fn new(symbols: &str) -> (t: Tokenizer)
        ensures
            t.symbols() == symbols@,
            t.pending() == Seq::<char>::empty(),
    {
        let mut result = Tokenizer { pending: Vec::new(), symbols: Vec::new() };
        let n = symbols.unicode_len();
        let mut k: usize = 0;
        while k < n
            invariant
                n == symbols@.len(),
                k <= n,
                result.symbols@ == symbols@.take(k as int),
                result.pending@ == Seq::<char>::empty(),
            decreases n - k,
        {
            let c = symbols.get_char(k);
            result.symbols.push(c);
            proof {
                assert(symbols@.take(k as int).push(symbols@[k as int]) =~= symbols@.take(
                    k + 1,
                ));
            }
            k += 1;
        }
        proof {
            assert(symbols@.take(n as int) =~= symbols@);
        }
        result
    }

    /// Scans `text` and returns its tokens; any pending run left from before
    /// takes part in the scan, and none is left behind.
    #[verifier::loop_isolation(false)]
    pub fn tokenize(&mut self, text: &str) -> (r: Vec<String>)
        ensures
            final(self).symbols() == old(self).symbols(),
            final(self).pending() == Seq::<char>::empty(),
            r.deep_view() == ({
                let st = scan(old(self).symbols(), Seq::empty(), old(self).pending(), text@);
                flush(st.0, st.1)
            }),
    {
        let mut tokens: Vec<String> = Vec::new();
        let n = text.unicode_len();
        proof {
            assert(tokens.deep_view() =~= Seq::<Seq<char>>::empty());
            assert(text@.skip(0) =~= text@);
        }
        let mut k: usize = 0;
        while k < n
            invariant
                n == text@.len(),
                k <= n,
                self.symbols() == old(self).symbols(),
                ({
                    let st = scan(old(self).symbols(), Seq::empty(), old(self).pending(), text@);
                    flush(st.0, st.1)
                }) == ({
                    let st = scan(
                        self.symbols(),
                        tokens.deep_view(),
                        self.pending(),
                        text@.skip(k as int),
                    );
                    flush(st.0, st.1)
                }),
            decreases n - k,
        {
            let ghost sym = self.symbols();
            let ghost pre_tokens = tokens.deep_view();
            let ghost pre_pending = self.pending@;
            let ghost rest = text@.skip(k as int);
            let c = text.get_char(k);
            if vec_contains_char(&self.symbols, c) {
                self.add_pending(&mut tokens);
                let ghost mid = tokens;
                let one = char_string(c);
                let ghost oneg = one;
                tokens.push(one);
                proof {
                    lemma_push_deep_view(mid, tokens, oneg);
                }
            } else if is_whitespace_char(c) {
                self.add_pending(&mut tokens);
            } else {
                self.pending.push(c);
            }
            proof {
                assert(rest.len() > 0);
                assert(rest[0] == text@[k as int]);
                assert(rest.skip(1) =~= text@.skip(k + 1));
                let st = scan_step(sym, pre_tokens, pre_pending, rest[0]);
                assert(tokens.deep_view() == st.0);
                assert(self.pending@ == st.1);
                assert(scan(sym, pre_tokens, pre_pending, rest) == scan(sym, st.0, st.1, rest.skip(1)));
            }
            k += 1;
        }
        self.add_pending(&mut tokens);
        proof {
            assert(text@.skip(n as int) =~= Seq::<char>::empty());
        }
        tokens
    }

    /// Flushes the pending run onto `tokens`, per `flush`.
    fn add_pending(&mut self, tokens: &mut Vec<String>)
        ensures
            final(self).symbols() == old(self).symbols(),
            final(self).pending() == Seq::<char>::empty(),
            final(tokens).deep_view() == flush(old(tokens).deep_view(), old(self).pending()),
    {
        if self.pending.len() > 0 {
            let token = lower_string(&self.pending);
            tokens.push(token);
            proof {
                lemma_push_deep_view(*old(tokens), *tokens, tokens@[tokens@.len() - 1]);
            }
            self.pending = Vec::new();
        }
    }
}

} // verus!
