//! Display filters: a compiled boolean predicate over a dissection
//! result's fields. The text is a small expression language over dotted
//! field paths: a bare path tests field presence, `==` and `!=` compare a
//! field's display representation, `<` `<=` `>` `>=` compare decimal
//! values, and tests combine with `and` / `or` / `not` (also `&&` `||`
//! `!`) and parentheses. Compilation either yields an immutable compiled
//! filter or fails with a diagnostic; it never aborts.

use vstd::prelude::*;

use crate::error::Error;
use crate::epan::ParsedRec;
use crate::tree::ProtoNodeData;
use vstd::string::StrSliceExecFns;
use vstd::string::StringExecFns;

verus! {

/// A comparison operator of the filter language.
#[derive(Clone, Copy, Debug, PartialEq, Eq, Structural)]
pub enum CmpOp {
    Eq,
    Ne,
    Lt,
    Le,
    Gt,
    Ge,
}

/// The compiled predicate, spec view: what a filter means.
pub enum FExprV {
    Exists { path: Seq<char> },
    Cmp { path: Seq<char>, op: CmpOp, val: Seq<char> },
    Neg { e: Box<FExprV> },
    Both { l: Box<FExprV>, r: Box<FExprV> },
    Either { l: Box<FExprV>, r: Box<FExprV> },
}

/// The compiled predicate.
#[derive(Debug)]
pub enum FExpr {
    Exists { path: String },
    Cmp { path: String, op: CmpOp, val: String },
    Neg { e: Box<FExpr> },
    Both { l: Box<FExpr>, r: Box<FExpr> },
    Either { l: Box<FExpr>, r: Box<FExpr> },
}

/// What a compiled predicate denotes.
pub open spec fn fexpr_v(e: FExpr) -> FExprV
    decreases e,
{
    match e {
        FExpr::Exists { path } => FExprV::Exists { path: path@ },
        FExpr::Cmp { path, op, val } => FExprV::Cmp { path: path@, op: op, val: val@ },
        FExpr::Neg { e } => FExprV::Neg { e: Box::new(fexpr_v(*e)) },
        FExpr::Both { l, r } => FExprV::Both { l: Box::new(fexpr_v(*l)), r: Box::new(fexpr_v(*r)) },
        FExpr::Either { l, r } => FExprV::Either {
            l: Box::new(fexpr_v(*l)),
            r: Box::new(fexpr_v(*r)),
        },
    }
}

impl View for FExpr {
    type V = FExprV;

    open spec fn view(&self) -> FExprV {
        fexpr_v(*self)
    }
}

/// One token, spec view.
pub enum TokV {
    TAnd,
    TOr,
    TNot,
    TLPar,
    TRPar,
    TOp { op: CmpOp },
    TWord { w: Seq<char> },
}

/// One token of the filter text.
#[derive(Debug)]
pub enum Token {
    TAnd,
    TOr,
    TNot,
    TLPar,
    TRPar,
    TOp { op: CmpOp },
    TWord { w: String },
}

impl View for Token {
    type V = TokV;

    closed spec fn view(&self) -> TokV {
        match self {
            Token::TAnd => TokV::TAnd,
            Token::TOr => TokV::TOr,
            Token::TNot => TokV::TNot,
            Token::TLPar => TokV::TLPar,
            Token::TRPar => TokV::TRPar,
            Token::TOp { op } => TokV::TOp { op: *op },
            Token::TWord { w } => TokV::TWord { w: w@ },
        }
    }
}

/// Characters that end a word of the filter text.
pub open spec fn is_delim(c: char) -> bool {
    c == ' ' || c == '(' || c == ')' || c == '=' || c == '!' || c == '<' || c == '>' || c == '&'
        || c == '|'
}

/// Where the word starting at `i` ends.
pub open spec fn word_end(s: Seq<char>, i: int) -> int
    decreases s.len() - i,
    when 0 <= i
{
    if i >= s.len() || is_delim(s[i]) {
        i
    } else {
        word_end(s, i + 1)
    }
}

/// The keywords `and`, `or` and `not` are operators; any other word is a
/// path or a literal value.
pub open spec fn keyword(w: Seq<char>) -> TokV {
    if w == seq!['a', 'n', 'd'] {
        TokV::TAnd
    } else if w == seq!['o', 'r'] {
        TokV::TOr
    } else if w == seq!['n', 'o', 't'] {
        TokV::TNot
    } else {
        TokV::TWord { w }
    }
}

/// Prepends a token to a tokenization that may have failed.
pub open spec fn cons_tok(t: TokV, rest: Option<Seq<TokV>>) -> Option<Seq<TokV>> {
    match rest {
        Some(r) => Some(seq![t] + r),
        None => None,
    }
}

/// Tokenizes the filter text from position `i` on; fails on a stray
/// operator character.
pub open spec fn spec_tokenize(s: Seq<char>, i: int) -> Option<Seq<TokV>>
    decreases s.len() - i,
    when 0 <= i
{
    if i >= s.len() {
        Some(Seq::empty())
    } else {
        let c = s[i];
        if c == ' ' {
            spec_tokenize(s, i + 1)
        } else if c == '(' {
            cons_tok(TokV::TLPar, spec_tokenize(s, i + 1))
        } else if c == ')' {
            cons_tok(TokV::TRPar, spec_tokenize(s, i + 1))
        } else if c == '=' {
            if i + 1 < s.len() && s[i + 1] == '=' {
                cons_tok(TokV::TOp { op: CmpOp::Eq }, spec_tokenize(s, i + 2))
            } else {
                None
            }
        } else if c == '!' {
            if i + 1 < s.len() && s[i + 1] == '=' {
                cons_tok(TokV::TOp { op: CmpOp::Ne }, spec_tokenize(s, i + 2))
            } else {
                cons_tok(TokV::TNot, spec_tokenize(s, i + 1))
            }
        } else if c == '<' {
            if i + 1 < s.len() && s[i + 1] == '=' {
                cons_tok(TokV::TOp { op: CmpOp::Le }, spec_tokenize(s, i + 2))
            } else {
                cons_tok(TokV::TOp { op: CmpOp::Lt }, spec_tokenize(s, i + 1))
            }
        } else if c == '>' {
            if i + 1 < s.len() && s[i + 1] == '=' {
                cons_tok(TokV::TOp { op: CmpOp::Ge }, spec_tokenize(s, i + 2))
            } else {
                cons_tok(TokV::TOp { op: CmpOp::Gt }, spec_tokenize(s, i + 1))
            }
        } else if c == '&' {
            if i + 1 < s.len() && s[i + 1] == '&' {
                cons_tok(TokV::TAnd, spec_tokenize(s, i + 2))
            } else {
                None
            }
        } else if c == '|' {
            if i + 1 < s.len() && s[i + 1] == '|' {
                cons_tok(TokV::TOr, spec_tokenize(s, i + 2))
            } else {
                None
            }
        } else {
            let j = word_end(s, i);
            if i + 1 <= j <= s.len() {
                cons_tok(keyword(s.subrange(i, j)), spec_tokenize(s, j))
            } else {
                None
            }
        }
    }
}

/// Prepends an already-produced token prefix to a tokenization that may
/// have failed.
pub open spec fn cons_all(prefix: Seq<TokV>, rest: Option<Seq<TokV>>) -> Option<Seq<TokV>> {
    match rest {
        Some(r) => Some(prefix + r),
        None => None,
    }
}

/// Moving one token from the pending tokenization to the produced prefix.
pub proof fn lemma_cons_all_push(prefix: Seq<TokV>, t: TokV, rest: Option<Seq<TokV>>)
    ensures
        cons_all(prefix, cons_tok(t, rest)) == cons_all(prefix.push(t), rest),
{
    match rest {
        Some(r) => {
            assert(prefix + (seq![t] + r) =~= prefix.push(t) + r);
        },
        None => {},
    }
}

/// A failed pending tokenization fails the whole.
pub proof fn lemma_cons_all_none(prefix: Seq<TokV>)
    ensures
        cons_all(prefix, None) is None,
{
}

/// Parses a disjunction: a conjunction, optionally `or` a disjunction.
pub open spec fn spec_parse_or(t: Seq<TokV>, i: int) -> Option<(FExprV, int)>
    decreases t.len() - i, 3int,
    when 0 <= i
{
    match spec_parse_and(t, i) {
        None => None,
        Some((l, j)) => if j < t.len() && t[j] is TOr {
            if i <= j {
                match spec_parse_or(t, j + 1) {
                    None => None,
                    Some((r, k)) => Some(
                        (FExprV::Either { l: Box::new(l), r: Box::new(r) }, k),
                    ),
                }
            } else {
                None
            }
        } else {
            Some((l, j))
        },
    }
}

/// Parses a conjunction: a negation, optionally `and` a conjunction.
pub open spec fn spec_parse_and(t: Seq<TokV>, i: int) -> Option<(FExprV, int)>
    decreases t.len() - i, 2int,
    when 0 <= i
{
    match spec_parse_not(t, i) {
        None => None,
        Some((l, j)) => if j < t.len() && t[j] is TAnd {
            if i <= j {
                match spec_parse_and(t, j + 1) {
                    None => None,
                    Some((r, k)) => Some((FExprV::Both { l: Box::new(l), r: Box::new(r) }, k)),
                }
            } else {
                None
            }
        } else {
            Some((l, j))
        },
    }
}

/// Parses any run of negations before a primary expression.
pub open spec fn spec_parse_not(t: Seq<TokV>, i: int) -> Option<(FExprV, int)>
    decreases t.len() - i, 1int,
    when 0 <= i
{
    if i < t.len() && t[i] is TNot {
        match spec_parse_not(t, i + 1) {
            None => None,
            Some((e, j)) => Some((FExprV::Neg { e: Box::new(e) }, j)),
        }
    } else {
        spec_parse_primary(t, i)
    }
}

/// Parses a parenthesized expression or a field test: a path alone, or a
/// path, an operator and a literal value.
pub open spec fn spec_parse_primary(t: Seq<TokV>, i: int) -> Option<(FExprV, int)>
    decreases t.len() - i, 0int,
    when 0 <= i
{
    if i >= t.len() {
        None
    } else {
        match t[i] {
            TokV::TLPar => match spec_parse_or(t, i + 1) {
                None => None,
                Some((e, j)) => if j < t.len() && t[j] is TRPar {
                    Some((e, j + 1))
                } else {
                    None
                },
            },
            TokV::TWord { w } => if i + 2 < t.len() && t[i + 1] is TOp && t[i + 2] is TWord {
                Some(
                    (
                        FExprV::Cmp {
                            path: w,
                            op: t[i + 1]->TOp_op,
                            val: t[i + 2]->TWord_w,
                        },
                        i + 3,
                    ),
                )
            } else {
                Some((FExprV::Exists { path: w }, i + 1))
            },
            _ => None,
        }
    }
}

/// What compiling a filter text means: tokenize, parse one expression,
/// and require that it consume the whole text.
pub open spec fn spec_compile(s: Seq<char>) -> Option<FExprV> {
    match spec_tokenize(s, 0) {
        None => None,
        Some(toks) => match spec_parse_or(toks, 0) {
            None => None,
            Some((e, j)) => if j == toks.len() {
                Some(e)
            } else {
                None
            },
        },
    }
}

/// The decimal value of a digit string.
pub open spec fn dec_val(s: Seq<char>) -> int
    decreases s.len(),
{
    if s.len() == 0 {
        0
    } else {
        10 * dec_val(s.drop_last()) + (s.last() as int - '0' as int)
    }
}

/// Whether every character is a decimal digit.
pub open spec fn all_digits(s: Seq<char>) -> bool {
    forall|k: int| 0 <= k < s.len() ==> '0' <= #[trigger] s[k] <= '9'
}

/// A string's value as an unsigned decimal number, where it is one that a
/// 64-bit machine word holds.
pub open spec fn dec_of(s: Seq<char>) -> Option<int> {
    if s.len() >= 1 && all_digits(s) && dec_val(s) <= u64::MAX {
        Some(dec_val(s))
    } else {
        None
    }
}

/// How one comparison reads a field's display representation.
pub open spec fn cmp_repr(repr: Seq<char>, op: CmpOp, val: Seq<char>) -> bool {
    match op {
        CmpOp::Eq => repr == val,
        CmpOp::Ne => repr != val,
        CmpOp::Lt => match (dec_of(repr), dec_of(val)) {
            (Some(a), Some(b)) => a < b,
            _ => false,
        },
        CmpOp::Le => match (dec_of(repr), dec_of(val)) {
            (Some(a), Some(b)) => a <= b,
            _ => false,
        },
        CmpOp::Gt => match (dec_of(repr), dec_of(val)) {
            (Some(a), Some(b)) => a > b,
            _ => false,
        },
        CmpOp::Ge => match (dec_of(repr), dec_of(val)) {
            (Some(a), Some(b)) => a >= b,
            _ => false,
        },
    }
}

/// Whether one node satisfies a field comparison.
pub open spec fn cmp_node(nd: ProtoNodeData, path: Seq<char>, op: CmpOp, val: Seq<char>) -> bool {
    nd.abbrev@ == path && (nd.fvalue matches Some(fv) && cmp_repr(fv.repr@, op, val))
}

/// What a compiled filter means against a dissection tree: a bare path is
/// satisfied by any node with that abbreviation; a comparison by any node
/// with that abbreviation whose value's representation satisfies it.
pub open spec fn eval_v(nodes: Seq<ProtoNodeData>, e: FExprV) -> bool
    decreases e,
{
    match e {
        FExprV::Exists { path } => exists|k: int|
            0 <= k < nodes.len() && (#[trigger] nodes[k]).abbrev@ == path,
        FExprV::Cmp { path, op, val } => exists|k: int|
            0 <= k < nodes.len() && cmp_node(#[trigger] nodes[k], path, op, val),
        FExprV::Neg { e } => !eval_v(nodes, *e),
        FExprV::Both { l, r } => eval_v(nodes, *l) && eval_v(nodes, *r),
        FExprV::Either { l, r } => eval_v(nodes, *l) || eval_v(nodes, *r),
    }
}

/// Scans to the end of the word starting at `i`.
fn scan_word(s: &str, i: usize) -> (j: usize)
    requires
        i < s@.len(),
        !is_delim(s@[i as int]),
    ensures
        j == word_end(s@, i as int),
        i < j <= s@.len(),
{
    let n = s.unicode_len();
    let mut j: usize = i;
    while j < n && !is_delim_exec(s.get_char(j))
        invariant
            i <= j <= n,
            n == s@.len(),
            word_end(s@, i as int) == word_end(s@, j as int),
        decreases n - j,
    {
        j = j + 1;
    }
    proof {
        assert(word_end(s@, j as int) == j);
        assert(word_end(s@, i as int) >= i + 1);
    }
    j
}

/// Whether `c` ends a word.
fn is_delim_exec(c: char) -> (r: bool)
    ensures
        r == is_delim(c),
{
    c == ' ' || c == '(' || c == ')' || c == '=' || c == '!' || c == '<' || c == '>' || c == '&'
        || c == '|'
}

/// Recognizes the word keywords.
fn keyword_exec(w: String) -> (r: Token)
    ensures
        r@ == keyword(w@),
{
    proof {
        reveal_strlit("and");
        reveal_strlit("or");
        reveal_strlit("not");
        assert("and"@ == seq!['a', 'n', 'd']);
        assert("or"@ == seq!['o', 'r']);
        assert("not"@ == seq!['n', 'o', 't']);
    }
    if w.as_str().unicode_len() == 3 && w.as_str().get_char(0) == 'a' && w.as_str().get_char(1)
        == 'n' && w.as_str().get_char(2) == 'd' {
        proof {
            assert(w@ =~= seq!['a', 'n', 'd']);
        }
        Token::TAnd
    } else if w.as_str().unicode_len() == 2 && w.as_str().get_char(0) == 'o' && w.as_str().get_char(
        1,
    ) == 'r' {
        proof {
            assert(w@ =~= seq!['o', 'r']);
        }
        Token::TOr
    } else if w.as_str().unicode_len() == 3 && w.as_str().get_char(0) == 'n' && w.as_str().get_char(
        1,
    ) == 'o' && w.as_str().get_char(2) == 't' {
        proof {
            assert(w@ =~= seq!['n', 'o', 't']);
        }
        Token::TNot
    } else {
        proof {
            assert(w@ != seq!['a', 'n', 'd']);
            assert(w@ != seq!['o', 'r']);
            assert(w@ != seq!['n', 'o', 't']);
        }
        Token::TWord { w }
    }
}

/// Tokenizes the whole filter text, or reports where it cannot.
fn tokenize(s: &str) -> (r: Option<Vec<Token>>)
    ensures
        match r {
            Some(toks) => spec_tokenize(s@, 0) == Some(toks@.map_values(|t: Token| t@)),
            None => spec_tokenize(s@, 0) is None,
        },
{
    let n = s.unicode_len();
    let mut toks: Vec<Token> = Vec::new();
    let mut i: usize = 0;
    while i < n
        invariant
            i <= n,
            n == s@.len(),
            spec_tokenize(s@, 0) == cons_all(toks@.map_values(|t: Token| t@), spec_tokenize(s@, i as int)),
        decreases n - i,
    {
        let ghost pretoks = toks@.map_values(|t: Token| t@);
        let c = s.get_char(i);
        if c == ' ' {
            i = i + 1;
        } else if c == '(' {
            toks.push(Token::TLPar);
            i = i + 1;
            proof {
                lemma_cons_all_push(pretoks, TokV::TLPar, spec_tokenize(s@, i as int));
                assert(toks@.map_values(|t: Token| t@) =~= pretoks.push(TokV::TLPar));
            }
        } else if c == ')' {
            toks.push(Token::TRPar);
            i = i + 1;
            proof {
                lemma_cons_all_push(pretoks, TokV::TRPar, spec_tokenize(s@, i as int));
                assert(toks@.map_values(|t: Token| t@) =~= pretoks.push(TokV::TRPar));
            }
        } else if c == '=' {
            if i + 1 < n && s.get_char(i + 1) == '=' {
                toks.push(Token::TOp { op: CmpOp::Eq });
                i = i + 2;
                proof {
                    lemma_cons_all_push(
                        pretoks,
                        TokV::TOp { op: CmpOp::Eq },
                        spec_tokenize(s@, i as int),
                    );
                    assert(toks@.map_values(|t: Token| t@) =~= pretoks.push(
                        TokV::TOp { op: CmpOp::Eq },
                    ));
                }
            } else {
                proof {
                    lemma_cons_all_none(pretoks);
                }
                return None;
            }
        } else if c == '!' {
            if i + 1 < n && s.get_char(i + 1) == '=' {
                toks.push(Token::TOp { op: CmpOp::Ne });
                i = i + 2;
                proof {
                    lemma_cons_all_push(
                        pretoks,
                        TokV::TOp { op: CmpOp::Ne },
                        spec_tokenize(s@, i as int),
                    );
                    assert(toks@.map_values(|t: Token| t@) =~= pretoks.push(
                        TokV::TOp { op: CmpOp::Ne },
                    ));
                }
            } else {
                toks.push(Token::TNot);
                i = i + 1;
                proof {
                    lemma_cons_all_push(pretoks, TokV::TNot, spec_tokenize(s@, i as int));
                    assert(toks@.map_values(|t: Token| t@) =~= pretoks.push(TokV::TNot));
                }
            }
        } else if c == '<' {
            if i + 1 < n && s.get_char(i + 1) == '=' {
                toks.push(Token::TOp { op: CmpOp::Le });
                i = i + 2;
                proof {
                    lemma_cons_all_push(
                        pretoks,
                        TokV::TOp { op: CmpOp::Le },
                        spec_tokenize(s@, i as int),
                    );
                    assert(toks@.map_values(|t: Token| t@) =~= pretoks.push(
                        TokV::TOp { op: CmpOp::Le },
                    ));
                }
            } else {
                toks.push(Token::TOp { op: CmpOp::Lt });
                i = i + 1;
                proof {
                    lemma_cons_all_push(
                        pretoks,
                        TokV::TOp { op: CmpOp::Lt },
                        spec_tokenize(s@, i as int),
                    );
                    assert(toks@.map_values(|t: Token| t@) =~= pretoks.push(
                        TokV::TOp { op: CmpOp::Lt },
                    ));
                }
            }
        } else if c == '>' {
            if i + 1 < n && s.get_char(i + 1) == '=' {
                toks.push(Token::TOp { op: CmpOp::Ge });
                i = i + 2;
                proof {
                    lemma_cons_all_push(
                        pretoks,
                        TokV::TOp { op: CmpOp::Ge },
                        spec_tokenize(s@, i as int),
                    );
                    assert(toks@.map_values(|t: Token| t@) =~= pretoks.push(
                        TokV::TOp { op: CmpOp::Ge },
                    ));
                }
            } else {
                toks.push(Token::TOp { op: CmpOp::Gt });
                i = i + 1;
                proof {
                    lemma_cons_all_push(
                        pretoks,
                        TokV::TOp { op: CmpOp::Gt },
                        spec_tokenize(s@, i as int),
                    );
                    assert(toks@.map_values(|t: Token| t@) =~= pretoks.push(
                        TokV::TOp { op: CmpOp::Gt },
                    ));
                }
            }
        } else if c == '&' {
            if i + 1 < n && s.get_char(i + 1) == '&' {
                toks.push(Token::TAnd);
                i = i + 2;
                proof {
                    lemma_cons_all_push(pretoks, TokV::TAnd, spec_tokenize(s@, i as int));
                    assert(toks@.map_values(|t: Token| t@) =~= pretoks.push(TokV::TAnd));
                }
            } else {
                proof {
                    lemma_cons_all_none(pretoks);
                }
                return None;
            }
        } else if c == '|' {
            if i + 1 < n && s.get_char(i + 1) == '|' {
                toks.push(Token::TOr);
                i = i + 2;
                proof {
                    lemma_cons_all_push(pretoks, TokV::TOr, spec_tokenize(s@, i as int));
                    assert(toks@.map_values(|t: Token| t@) =~= pretoks.push(TokV::TOr));
                }
            } else {
                proof {
                    lemma_cons_all_none(pretoks);
                }
                return None;
            }
        } else {
            let j = scan_word(s, i);
            let w = String::from_str(s.substring_char(i, j));
            proof {
                assert(w@ == s@.subrange(i as int, j as int));
            }
            let tok = keyword_exec(w);
            let ghost tv = tok@;
            toks.push(tok);
            i = j;
            proof {
                lemma_cons_all_push(pretoks, tv, spec_tokenize(s@, i as int));
                assert(toks@.map_values(|t: Token| t@) =~= pretoks.push(tv));
            }
        }
    }
    proof {
        assert(spec_tokenize(s@, n as int) == Some(Seq::<TokV>::empty()));
        assert(cons_all(toks@.map_values(|t: Token| t@), Some(Seq::<TokV>::empty())) == Some(
            toks@.map_values(|t: Token| t@) + Seq::<TokV>::empty(),
        ));
        assert(toks@.map_values(|t: Token| t@) + Seq::<TokV>::empty() =~= toks@.map_values(
            |t: Token| t@,
        ));
    }
    Some(toks)
}

/// Whatever any parser accepts ends strictly past where it began, inside
/// the token run.
pub proof fn lemma_parse_advances(t: Seq<TokV>, i: int, rank: int)
    requires
        0 <= i,
        0 <= rank <= 3,
    ensures
        rank == 3 ==> (spec_parse_or(t, i) matches Some(p) ==> i < p.1 <= t.len()),
        rank == 2 ==> (spec_parse_and(t, i) matches Some(p) ==> i < p.1 <= t.len()),
        rank == 1 ==> (spec_parse_not(t, i) matches Some(p) ==> i < p.1 <= t.len()),
        rank == 0 ==> (spec_parse_primary(t, i) matches Some(p) ==> i < p.1 <= t.len()),
    decreases t.len() - i, rank,
{
    if rank == 3 {
        lemma_parse_advances(t, i, 2);
        match spec_parse_and(t, i) {
            Some((l, j)) => {
                if j < t.len() && t[j] is TOr {
                    lemma_parse_advances(t, j + 1, 3);
                }
            },
            None => {},
        }
    } else if rank == 2 {
        lemma_parse_advances(t, i, 1);
        match spec_parse_not(t, i) {
            Some((l, j)) => {
                if j < t.len() && t[j] is TAnd {
                    lemma_parse_advances(t, j + 1, 2);
                }
            },
            None => {},
        }
    } else if rank == 1 {
        if i < t.len() && t[i] is TNot {
            lemma_parse_advances(t, i + 1, 1);
        } else {
            lemma_parse_advances(t, i, 0);
        }
    } else {
        if i < t.len() && t[i] is TLPar {
            lemma_parse_advances(t, i + 1, 3);
        }
    }
}

/// Parses a disjunction at `i`, as `spec_parse_or` describes.
fn parse_or(toks: &Vec<Token>, i: usize) -> (r: Option<(FExpr, usize)>)
    requires
        i <= toks@.len(),
    ensures
        ({
            let s = spec_parse_or(toks@.map_values(|t: Token| t@), i as int);
            match r {
                Some((e, j)) => s matches Some(p) && p.0 == e@ && p.1 == j && i < j <= toks@.len(),
                None => s is None,
            }
        }),
    decreases toks@.len() - i, 3int,
{
    let ghost tv = toks@.map_values(|t: Token| t@);
    proof {
        lemma_parse_advances(tv, i as int, 3);
        lemma_parse_advances(tv, i as int, 2);
    }
    match parse_and(toks, i) {
        None => None,
        Some((l, j)) => {
            if j < toks.len() && matches!(toks[j], Token::TOr) {
                proof {
                    assert(tv[j as int] is TOr);
                    lemma_parse_advances(tv, j as int + 1, 3);
                }
                match parse_or(toks, j + 1) {
                    None => None,
                    Some((r2, k)) => Some(
                        (FExpr::Either { l: Box::new(l), r: Box::new(r2) }, k),
                    ),
                }
            } else {
                proof {
                    if j < toks.len() {
                        assert(tv[j as int] == toks@[j as int]@);
                        assert(!(tv[j as int] is TOr));
                    }
                }
                Some((l, j))
            }
        },
    }
}

/// Parses a conjunction at `i`, as `spec_parse_and` describes.
fn parse_and(toks: &Vec<Token>, i: usize) -> (r: Option<(FExpr, usize)>)
    requires
        i <= toks@.len(),
    ensures
        ({
            let s = spec_parse_and(toks@.map_values(|t: Token| t@), i as int);
            match r {
                Some((e, j)) => s matches Some(p) && p.0 == e@ && p.1 == j && i < j <= toks@.len(),
                None => s is None,
            }
        }),
    decreases toks@.len() - i, 2int,
{
    let ghost tv = toks@.map_values(|t: Token| t@);
    proof {
        lemma_parse_advances(tv, i as int, 2);
        lemma_parse_advances(tv, i as int, 1);
    }
    match parse_not(toks, i) {
        None => None,
        Some((l, j)) => {
            if j < toks.len() && matches!(toks[j], Token::TAnd) {
                proof {
                    assert(tv[j as int] is TAnd);
                    lemma_parse_advances(tv, j as int + 1, 2);
                }
                match parse_and(toks, j + 1) {
                    None => None,
                    Some((r2, k)) => Some((FExpr::Both { l: Box::new(l), r: Box::new(r2) }, k)),
                }
            } else {
                proof {
                    if j < toks.len() {
                        assert(tv[j as int] == toks@[j as int]@);
                        assert(!(tv[j as int] is TAnd));
                    }
                }
                Some((l, j))
            }
        },
    }
}

/// Parses negations and a primary at `i`, as `spec_parse_not` describes.
fn parse_not(toks: &Vec<Token>, i: usize) -> (r: Option<(FExpr, usize)>)
    requires
        i <= toks@.len(),
    ensures
        ({
            let s = spec_parse_not(toks@.map_values(|t: Token| t@), i as int);
            match r {
                Some((e, j)) => s matches Some(p) && p.0 == e@ && p.1 == j && i < j <= toks@.len(),
                None => s is None,
            }
        }),
    decreases toks@.len() - i, 1int,
{
    let ghost tv = toks@.map_values(|t: Token| t@);
    proof {
        lemma_parse_advances(tv, i as int, 1);
    }
    if i < toks.len() && matches!(toks[i], Token::TNot) {
        proof {
            assert(tv[i as int] is TNot);
        }
        match parse_not(toks, i + 1) {
            None => None,
            Some((e, j)) => Some((FExpr::Neg { e: Box::new(e) }, j)),
        }
    } else {
        proof {
            if i < toks.len() {
                assert(tv[i as int] == toks@[i as int]@);
                assert(!(tv[i as int] is TNot));
            }
        }
        parse_primary(toks, i)
    }
}

/// Parses a parenthesized expression or a field test at `i`, as
/// `spec_parse_primary` describes.
fn parse_primary(toks: &Vec<Token>, i: usize) -> (r: Option<(FExpr, usize)>)
    requires
        i <= toks@.len(),
    ensures
        ({
            let s = spec_parse_primary(toks@.map_values(|t: Token| t@), i as int);
            match r {
                Some((e, j)) => s matches Some(p) && p.0 == e@ && p.1 == j && i < j <= toks@.len(),
                None => s is None,
            }
        }),
    decreases toks@.len() - i, 0int,
{
    let ghost tv = toks@.map_values(|t: Token| t@);
    proof {
        lemma_parse_advances(tv, i as int, 0);
    }
    if i >= toks.len() {
        return None;
    }
    proof {
        assert(tv[i as int] == toks@[i as int]@);
    }
    match &toks[i] {
        Token::TLPar => {
            proof {
                lemma_parse_advances(tv, i as int + 1, 3);
            }
            match parse_or(toks, i + 1) {
                None => None,
                Some((e, j)) => {
                    if j < toks.len() && matches!(toks[j], Token::TRPar) {
                        proof {
                            assert(tv[j as int] is TRPar);
                        }
                        Some((e, j + 1))
                    } else {
                        proof {
                            if j < toks.len() {
                                assert(tv[j as int] == toks@[j as int]@);
                            }
                        }
                        None
                    }
                },
            }
        },
        Token::TWord { w } => {
            if toks.len() - i > 2 && matches!(toks[i + 1], Token::TOp { .. }) && matches!(
                toks[i + 2],
                Token::TWord { .. },
            ) {
                proof {
                    assert(tv[i as int + 1] == toks@[i as int + 1]@);
                    assert(tv[i as int + 2] == toks@[i as int + 2]@);
                }
                let op = match &toks[i + 1] {
                    Token::TOp { op } => *op,
                    _ => CmpOp::Eq,
                };
                let val = match &toks[i + 2] {
                    Token::TWord { w } => w.clone(),
                    _ => String::new(),
                };
                Some((FExpr::Cmp { path: w.clone(), op, val }, i + 3))
            } else {
                proof {
                    if i + 1 < toks.len() {
                        assert(tv[i as int + 1] == toks@[i as int + 1]@);
                    }
                    if i + 2 < toks.len() {
                        assert(tv[i as int + 2] == toks@[i as int + 2]@);
                    }
                }
                Some((FExpr::Exists { path: w.clone() }, i + 1))
            }
        },
        _ => None,
    }
}

/// Appending a digit can only grow a decimal value.
proof fn lemma_dec_val_grows(s: Seq<char>, i: int)
    requires
        all_digits(s),
        0 <= i <= s.len(),
    ensures
        dec_val(s.take(i)) <= dec_val(s),
        dec_val(s) >= 0,
    decreases s.len() - i,
{
    if i == s.len() {
        assert(s.take(i) =~= s);
        lemma_dec_val_nonneg(s);
    } else {
        lemma_dec_val_grows(s, i + 1);
        lemma_dec_val_nonneg(s.take(i));
        assert(s.take(i + 1).drop_last() =~= s.take(i));
        assert(s.take(i + 1).last() == s[i]);
        assert(dec_val(s.take(i + 1)) == 10 * dec_val(s.take(i)) + (s[i] as int - '0' as int));
    }
}

/// A digit string's value is never negative.
proof fn lemma_dec_val_nonneg(s: Seq<char>)
    requires
        all_digits(s),
    ensures
        dec_val(s) >= 0,
    decreases s.len(),
{
    if s.len() > 0 {
        assert(all_digits(s.drop_last())) by {
            assert(forall|k: int| 0 <= k < s.len() - 1 ==> s.drop_last()[k] == s[k]);
        }
        lemma_dec_val_nonneg(s.drop_last());
    }
}

/// Reads a word as an unsigned decimal number, as `dec_of` describes.
fn parse_dec(s: &str) -> (r: Option<u64>)
    ensures
        match r {
            Some(v) => dec_of(s@) == Some(v as int),
            None => dec_of(s@) is None,
        },
{
    let n = s.unicode_len();
    if n == 0 {
        return None;
    }
    let mut acc: u64 = 0;
    let mut i: usize = 0;
    while i < n
        invariant
            i <= n,
            n == s@.len(),
            all_digits(s@.take(i as int)),
            acc == dec_val(s@.take(i as int)),
        decreases n - i,
    {
        let c = s.get_char(i);
        let cu = c as u32;
        if cu < 48 || cu > 57 {
            proof {
                assert(!('0' <= s@[i as int] <= '9'));
                assert(!all_digits(s@));
            }
            return None;
        }
        let d: u64 = (cu - 48) as u64;
        proof {
            assert(d == c as int - '0' as int);
            assert(d <= 9);
        }
        let m = (u64::MAX - d) / 10;
        if acc > m {
            proof {
                assert(all_digits(s@.take(i as int + 1))) by {
                    assert(forall|k: int| 0 <= k < i + 1 ==> s@.take(i as int + 1)[k] == s@[k]);
                    assert('0' <= s@[i as int] <= '9');
                }
                assert(s@.take(i as int + 1).drop_last() =~= s@.take(i as int));
                assert(dec_val(s@.take(i as int + 1)) == 10 * (acc as int) + d);
                vstd::arithmetic::div_mod::lemma_fundamental_div_mod((u64::MAX - d) as int, 10);
                assert((u64::MAX - d) as int == 10 * (m as int) + ((u64::MAX - d) as int % 10));
                assert(10 * (acc as int) >= 10 * (m as int + 1)) by (nonlinear_arith)
                    requires
                        acc as int >= m as int + 1,
                ;
                assert(10 * (acc as int) + d > u64::MAX);
                if all_digits(s@) {
                    lemma_dec_val_grows(s@, i as int + 1);
                }
            }
            return None;
        }
        acc = acc * 10 + d;
        i = i + 1;
        proof {
            assert(s@.take(i as int).drop_last() =~= s@.take(i as int - 1));
            assert(all_digits(s@.take(i as int)));
        }
    }
    proof {
        assert(s@.take(n as int) =~= s@);
    }
    Some(acc)
}

/// Evaluates one comparison against a field's display representation, as
/// `cmp_repr` describes.
fn cmp_repr_exec(repr: &String, op: CmpOp, val: &String) -> (r: bool)
    ensures
        r == cmp_repr(repr@, op, val@),
{
    match op {
        CmpOp::Eq => *repr == *val,
        CmpOp::Ne => !(*repr == *val),
        _ => {
            let a = parse_dec(repr.as_str());
            let b = parse_dec(val.as_str());
            match (a, b) {
                (Some(x), Some(y)) => match op {
                    CmpOp::Lt => x < y,
                    CmpOp::Le => x <= y,
                    CmpOp::Gt => x > y,
                    _ => x >= y,
                },
                _ => false,
            }
        },
    }
}

/// Evaluates a compiled predicate against a dissection tree, as `eval_v`
/// describes.
fn eval_expr(nodes: &Vec<ProtoNodeData>, e: &FExpr) -> (r: bool)
    ensures
        r == eval_v(nodes@, e@),
    decreases e,
{
    match e {
        FExpr::Exists { path } => {
            let mut k: usize = 0;
            while k < nodes.len()
                invariant
                    k <= nodes@.len(),
                    e@ == (FExprV::Exists { path: path@ }),
                    forall|m: int| 0 <= m < k ==> (#[trigger] nodes@[m]).abbrev@ != path@,
                decreases nodes@.len() - k,
            {
                if nodes[k].abbrev == *path {
                    proof {
                        assert(0 <= k < nodes@.len() && nodes@[k as int].abbrev@ == path@);
                    }
                    return true;
                }
                k = k + 1;
            }
            false
        },
        FExpr::Cmp { path, op, val } => {
            let mut k: usize = 0;
            while k < nodes.len()
                invariant
                    k <= nodes@.len(),
                    e@ == (FExprV::Cmp { path: path@, op: *op, val: val@ }),
                    forall|m: int| 0 <= m < k ==> !cmp_node(#[trigger] nodes@[m], path@, *op, val@),
                decreases nodes@.len() - k,
            {
                if nodes[k].abbrev == *path {
                    match &nodes[k].fvalue {
                        Some(fv) => {
                            if cmp_repr_exec(&fv.repr, *op, val) {
                                proof {
                                    assert(nodes@[k as int].fvalue matches Some(f) && f.repr@
                                        == fv.repr@);
                                    assert(cmp_node(nodes@[k as int], path@, *op, val@));
                                    assert(0 <= k < nodes@.len());
                                }
                                return true;
                            }
                        },
                        None => {},
                    }
                }
                k = k + 1;
            }
            false
        },
        FExpr::Neg { e } => !eval_expr(nodes, e),
        FExpr::Both { l, r } => eval_expr(nodes, l) && eval_expr(nodes, r),
        FExpr::Either { l, r } => eval_expr(nodes, l) || eval_expr(nodes, r),
    }
}

/// A compiled display filter: the compiled predicate and the original
/// filter text, kept for diagnostics and display. Immutable once built.
#[derive(Debug)]
pub struct DFilter {
    pub dfp: FExpr,
    pub filter_str: String,
}

impl DFilter {
    /// Compiles filter text. Succeeds exactly on the texts the filter
    /// grammar accepts; any failure carries a non-empty diagnostic, and
    /// construction never panics.
    pub fn new(filter_str: String) -> (r: Result<DFilter, Error>)
        ensures
            r is Ok <==> spec_compile(filter_str@) is Some,
            r matches Ok(f) ==> {
                &&& Some(f.dfp@) == spec_compile(filter_str@)
                &&& f.filter_str == filter_str
            },
            r matches Err(e) ==> e matches Error::InvalidFilter(m) && m@.len() > 0,
    {
        let toks = match tokenize(filter_str.as_str()) {
            Some(toks) => toks,
            None => {
                let msg = String::from_str("unrecognized character in filter text");
                proof {
                    reveal_strlit("unrecognized character in filter text");
                }
                return Err(Error::InvalidFilter(msg));
            },
        };
        match parse_or(&toks, 0) {
            Some((e, j)) => {
                if j == toks.len() {
                    Ok(DFilter { dfp: e, filter_str })
                } else {
                    let msg = String::from_str("unexpected trailing tokens in filter text");
                    proof {
                        reveal_strlit("unexpected trailing tokens in filter text");
                    }
                    Err(Error::InvalidFilter(msg))
                }
            },
            None => {
                let msg = String::from_str("filter text does not parse as a predicate");
                proof {
                    reveal_strlit("filter text does not parse as a predicate");
                }
                Err(Error::InvalidFilter(msg))
            },
        }
    }

    /// Evaluates the predicate against a dissection result. Requires the
    /// result to have been dissected: before that the engine-level
    /// behaviour would be undefined, so the call fails with the
    /// not-dissected condition instead of forwarding.
    pub fn apply_rec(&self, rec: &ParsedRec) -> (r: Result<bool, Error>)
        ensures
            r is Ok <==> rec.spec_dissected(),
            r matches Ok(b) ==> rec.tree matches Some(t) && b == eval_v(t.nodes@, self.dfp@),
            r matches Err(e) ==> e is NotDissected,
    {
        match &rec.tree {
            None => Err(Error::NotDissected),
            Some(t) => Ok(eval_expr(&t.nodes, &self.dfp)),
        }
    }
}


} // verus!
