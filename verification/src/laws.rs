//! General properties of the grammar, stated and proved over the
//! specification functions: the brace-balance round trip of the
//! brace-balanced reader, and the word-terminator boundary of barewords.
use vstd::prelude::*;

use crate::chars::CharPred;
use crate::chars::is_word_terminator_char;
use crate::error::ErrX;
use crate::ast::TermX;
use crate::grammar::lemma_bareword_bounds;
use crate::grammar::lemma_interp_dollar_bounds;
use crate::grammar::lemma_interp_items_bounds;
use crate::grammar::lemma_interp_lit_bounds;
use crate::grammar::sp_bareword;
use crate::grammar::sp_interp_dollar;
use crate::grammar::sp_interp_items;
use crate::grammar::sp_interp_lit;
use crate::scanner::lemma_consume_escaped_bounds;
use crate::scanner::sp_braces;
use crate::scanner::sp_braces_body;
use crate::scanner::sp_consume_escaped;

verus! {

/// The escape-encoding of one character for the brace-balanced reader:
/// braces and the backslash are escaped, everything else stands as it is.
pub open spec fn brace_escape(c: char) -> Seq<char> {
    if c == '{' || c == '}' || c == '\\' {
        seq!['\\', c]
    } else {
        seq![c]
    }
}

/// The escape-encoding of a whole content sequence.
pub open spec fn brace_encode(content: Seq<char>) -> Seq<char>
    decreases content.len(),
{
    if content.len() == 0 {
        Seq::empty()
    } else {
        brace_escape(content[0]) + brace_encode(content.drop_first())
    }
}

proof fn lemma_braces_body_encode(data: Seq<char>, i: int, content: Seq<char>)
    requires
        0 <= i,
        i + brace_encode(content).len() + 1 <= data.len(),
        data.subrange(i, i + brace_encode(content).len() as int) == brace_encode(content),
        data[i + brace_encode(content).len() as int] == '}',
    ensures
        sp_braces_body(data, i, 1) == Ok::<_, ErrX>(
            (content, i + brace_encode(content).len() + 1),
        ),
    decreases content.len(),
{
    let enc = brace_encode(content);
    let ll = enc.len() as int;
    if content.len() == 0 {
        assert(content =~= Seq::<char>::empty());
        assert(data[i] == '}');
    } else {
        let c = content[0];
        let rest = content.drop_first();
        let enc_rest = brace_encode(rest);
        assert(enc == brace_escape(c) + enc_rest);
        if c == '{' || c == '}' || c == '\\' {
            assert(enc[0] == '\\' && enc[1] == c);
            assert(data[i] == '\\') by {
                assert(data.subrange(i, i + ll)[0] == data[i]);
            }
            assert(data[i + 1] == c) by {
                assert(data.subrange(i, i + ll)[1] == data[i + 1]);
            }
            assert(data.subrange(i + 2, i + 2 + enc_rest.len() as int) == enc_rest) by {
                assert(data.subrange(i + 2, i + 2 + enc_rest.len() as int) =~= data.subrange(
                    i,
                    i + ll,
                ).subrange(2, ll));
                assert(enc.subrange(2, ll) =~= enc_rest);
            }
            lemma_braces_body_encode(data, i + 2, rest);
            assert(seq![c] + rest =~= content);
            assert(sp_braces_body(data, i, 1) == Ok::<_, ErrX>((seq![c] + rest, i + ll + 1)));
        } else {
            assert(enc[0] == c);
            assert(data[i] == c) by {
                assert(data.subrange(i, i + ll)[0] == data[i]);
            }
            assert(data.subrange(i + 1, i + 1 + enc_rest.len() as int) == enc_rest) by {
                assert(data.subrange(i + 1, i + 1 + enc_rest.len() as int) =~= data.subrange(
                    i,
                    i + ll,
                ).subrange(1, ll));
                assert(enc.subrange(1, ll) =~= enc_rest);
            }
            lemma_braces_body_encode(data, i + 1, rest);
            assert(seq![c] + rest =~= content);
            assert(sp_braces_body(data, i, 1) == Ok::<_, ErrX>((seq![c] + rest, i + ll + 1)));
        }
    }
}

/// Brace balance: on an input of the form `{`, then arbitrary content with
/// its braces and backslashes escaped, then the matching `}` — whatever
/// follows — the brace-balanced reader returns exactly the unescaped
/// content, with the escape markers removed, and stops just past the
/// closing brace.
pub proof fn lemma_braces_round_trip(content: Seq<char>, rest: Seq<char>)
    ensures
        ({
            let input = seq!['{'] + brace_encode(content) + seq!['}'] + rest;
            sp_braces(input, 0) == Ok::<_, ErrX>((content, brace_encode(content).len() as int + 2))
        }),
{
    let enc = brace_encode(content);
    let input = seq!['{'] + enc + seq!['}'] + rest;
    assert(input.subrange(1, 1 + enc.len() as int) =~= enc);
    assert(input[1 + enc.len() as int] == '}');
    lemma_braces_body_encode(input, 1, content);
}

/// What may stand inside an `Interp` term: a literal, a variable or a
/// substitution — never a block or a nested interpolation.
pub open spec fn is_fragment(t: TermX) -> bool {
    t is StringLit || t is Variable || t is Subst
}

/// Every fragment sequence `fs` of a term sequence is admissible.
pub open spec fn all_fragments(fs: Seq<TermX>) -> bool {
    forall|k: int| 0 <= k < fs.len() ==> is_fragment(#[trigger] fs[k])
}

proof fn lemma_interp_dollar_fragment(data: Seq<char>, i: int)
    requires
        0 <= i <= data.len(),
    ensures
        sp_interp_dollar(data, i) matches Ok(tj) ==> is_fragment(tj.0),
{
}

/// The children of an interpolated term are only literals, variables and
/// substitutions, whether the term came from a bareword or from a
/// double-quoted string body.
pub proof fn lemma_interp_children(data: Seq<char>, i: int, depth: int)
    requires
        0 <= i <= data.len(),
    ensures
        sp_bareword(data, i) matches Ok(sj) ==> all_fragments(sj.0),
        sp_interp_items(data, i, depth) matches Ok(sj) ==> all_fragments(sj.0),
    decreases data.len() - i,
{
    lemma_bareword_bounds(data, i);
    lemma_interp_items_bounds(data, i, depth);
    if i < data.len() && data[i] == '$' {
        lemma_interp_dollar_fragment(data, i);
        lemma_interp_dollar_bounds(data, i);
        if sp_interp_dollar(data, i) is Ok {
            let tj = sp_interp_dollar(data, i)->Ok_0;
            lemma_interp_children(data, tj.1, depth);
            if sp_bareword(data, tj.1) is Ok {
                let rest = sp_bareword(data, tj.1)->Ok_0.0;
                assert(all_fragments(seq![tj.0] + rest)) by {
                    assert(forall|k: int|
                        1 <= k < (seq![tj.0] + rest).len() ==> (seq![tj.0] + rest)[k] == rest[k
                            - 1]);
                }
            }
            if sp_interp_items(data, tj.1, depth) is Ok {
                let rest = sp_interp_items(data, tj.1, depth)->Ok_0.0;
                assert(all_fragments(seq![tj.0] + rest)) by {
                    assert(forall|k: int|
                        1 <= k < (seq![tj.0] + rest).len() ==> (seq![tj.0] + rest)[k] == rest[k
                            - 1]);
                }
            }
        }
    } else {
        if i < data.len() && !is_word_terminator_char(data[i]) {
            lemma_consume_escaped_bounds(data, i, CharPred::BarewordChar);
            if sp_consume_escaped(data, i, CharPred::BarewordChar) is Ok {
                let sj = sp_consume_escaped(data, i, CharPred::BarewordChar)->Ok_0;
                lemma_interp_children(data, sj.1, depth);
                let lit = TermX::StringLit(sj.0);
                if sp_bareword(data, sj.1) is Ok {
                    let rest = sp_bareword(data, sj.1)->Ok_0.0;
                    assert(all_fragments(seq![lit] + rest)) by {
                        assert(forall|k: int|
                            1 <= k < (seq![lit] + rest).len() ==> (seq![lit] + rest)[k] == rest[k
                                - 1]);
                    }
                }
            }
        }
        if depth > 0 && i < data.len() && data[i] != '$' {
            lemma_interp_lit_bounds(data, i, depth);
            if sp_interp_lit(data, i, depth) is Ok {
                let t = sp_interp_lit(data, i, depth)->Ok_0;
                let lit: Seq<TermX> = if t.0.len() > 0 {
                    seq![TermX::StringLit(t.0)]
                } else {
                    Seq::empty()
                };
                assert(all_fragments(lit));
                if t.2 != 0 && i < t.1 <= data.len() {
                    lemma_interp_children(data, t.1, t.2);
                    if sp_interp_items(data, t.1, t.2) is Ok {
                        let rest = sp_interp_items(data, t.1, t.2)->Ok_0.0;
                        assert(all_fragments(lit + rest)) by {
                            assert(forall|k: int|
                                0 <= k < (lit + rest).len() ==> (lit + rest)[k] == (if k
                                    < lit.len() {
                                    lit[k]
                                } else {
                                    rest[k - lit.len()]
                                }));
                        }
                    }
                }
            }
        }
    }
}

/// Word-terminator boundary: a bareword ends exactly before a word
/// terminator. Wherever the bareword grammar stops, either the input is
/// exhausted or the character at the stop position is a word terminator —
/// a `;`, a newline, a `#`, a `]`, a `)`, a `|` or whitespace — and that
/// character is never consumed.
pub proof fn lemma_bareword_boundary(data: Seq<char>, i: int)
    requires
        0 <= i <= data.len(),
    ensures
        sp_bareword(data, i) matches Ok(sj) ==> i <= sj.1 <= data.len() && (sj.1 < data.len()
            ==> is_word_terminator_char(data[sj.1])),
    decreases data.len() - i,
{
    lemma_bareword_bounds(data, i);
    if i >= data.len() || is_word_terminator_char(data[i]) {
    } else if data[i] == '$' {
        lemma_interp_dollar_bounds(data, i);
        if sp_interp_dollar(data, i) is Ok {
            let tj = sp_interp_dollar(data, i)->Ok_0;
            lemma_bareword_boundary(data, tj.1);
        }
    } else {
        lemma_consume_escaped_bounds(data, i, CharPred::BarewordChar);
        if sp_consume_escaped(data, i, CharPred::BarewordChar) is Ok {
            let sj = sp_consume_escaped(data, i, CharPred::BarewordChar)->Ok_0;
            lemma_bareword_boundary(data, sj.1);
        }
    }
}

} // verus!
