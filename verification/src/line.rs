use vstd::prelude::*;
use vstd::string::*;
use crate::grammar::{names_of, contains_string, Symbol, SpecSymbol, SpecProduction, Production};

verus! {

/// A character that splits words: ASCII space, tab, line feed, form feed or carriage return.
pub open spec fn is_ascii_ws(c: char) -> bool {
    c == ' ' || c == '\t' || c == '\n' || c == '\x0C' || c == '\r'
}

/// A character of the Unicode `White_Space` property, which is what trimming removes.
pub open spec fn is_unicode_ws(c: char) -> bool {
    let u = c as u32;
    ||| 0x09 <= u <= 0x0D
    ||| u == 0x20
    ||| u == 0x85
    ||| u == 0xA0
    ||| u == 0x1680
    ||| 0x2000 <= u <= 0x200A
    ||| u == 0x2028
    ||| u == 0x2029
    ||| u == 0x202F
    ||| u == 0x205F
    ||| u == 0x3000
}

/// The text without its leading white space.
pub open spec fn trim_start(s: Seq<char>) -> Seq<char>
    decreases s.len(),
{
    if s.len() > 0 && is_unicode_ws(s[0]) {
        trim_start(s.drop_first())
    } else {
        s
    }
}

/// The text without its trailing white space.
pub open spec fn trim_end(s: Seq<char>) -> Seq<char>
    decreases s.len(),
{
    if s.len() > 0 && is_unicode_ws(s.last()) {
        trim_end(s.drop_last())
    } else {
        s
    }
}

/// The text without its leading and trailing white space.
pub open spec fn trim(s: Seq<char>) -> Seq<char> {
    trim_end(trim_start(s))
}

/// The length of the word the text starts with.
pub open spec fn word_len(s: Seq<char>) -> nat
    decreases s.len(),
{
    if s.len() > 0 && !is_ascii_ws(s[0]) {
        1 + word_len(s.drop_first())
    } else {
        0
    }
}

pub proof fn lemma_word_len(s: Seq<char>)
    ensures
        word_len(s) <= s.len(),
        s.len() > 0 && !is_ascii_ws(s[0]) ==> word_len(s) >= 1,
    decreases s.len(),
{
    if s.len() > 0 && !is_ascii_ws(s[0]) {
        lemma_word_len(s.drop_first());
    }
}

/// The words of the text: its maximal runs of characters other than ASCII white space.
pub open spec fn words(s: Seq<char>) -> Seq<Seq<char>>
    decreases s.len(),
{
    if s.len() == 0 {
        Seq::empty()
    } else if is_ascii_ws(s[0]) {
        words(s.drop_first())
    } else {
        proof {
            lemma_word_len(s);
        }
        seq![s.take(word_len(s) as int)] + words(s.skip(word_len(s) as int))
    }
}

/// The words of a line of a grammar, once trimmed.
pub open spec fn line_words(line: Seq<char>) -> Seq<Seq<char>> {
    words(trim(line))
}

/// The line reads `A -> ...`: its second word is the arrow.
pub open spec fn is_production_line(line: Seq<char>) -> bool {
    let w = line_words(line);
    w.len() >= 2 && w[1] == "->"@
}

/// A word of a production's right side: a non-terminal when it is one of `nts`, else a
/// terminal.
pub open spec fn classify(w: Seq<char>, nts: Seq<Seq<char>>) -> SpecSymbol {
    if nts.contains(w) {
        SpecSymbol::NonTerminal(w)
    } else {
        SpecSymbol::Terminal(w)
    }
}

/// The production a line `A -> x y ...` stands for: `A`, and the words after the arrow.
pub open spec fn production_of(line: Seq<char>, nts: Seq<Seq<char>>) -> SpecProduction {
    let w = line_words(line);
    SpecProduction { lhs: w[0], rhs: w.skip(2).map_values(|x: Seq<char>| classify(x, nts)) }
}

fn ascii_ws(c: char) -> (r: bool)
    ensures
        r == is_ascii_ws(c),
{
    c == ' ' || c == '\t' || c == '\n' || c == '\x0C' || c == '\r'
}

fn unicode_ws(c: char) -> (r: bool)
    ensures
        r == is_unicode_ws(c),
{
    let u = c as u32;
    (0x09 <= u && u <= 0x0D) || u == 0x20 || u == 0x85 || u == 0xA0 || u == 0x1680 || (0x2000 <= u
        && u <= 0x200A) || u == 0x2028 || u == 0x2029 || u == 0x202F || u == 0x205F || u == 0x3000
}

/// Where the text without its leading and trailing white space begins and ends, in
/// characters.
fn trim_bounds(line: &str) -> (r: (usize, usize))
    ensures
        r.0 <= r.1 <= line@.len(),
        trim(line@) == line@.subrange(r.0 as int, r.1 as int),
{
    let ghost s = line@;
    let n = line.unicode_len();
    let mut a: usize = 0;
    assert(s.skip(0) =~= s);
    while a < n && unicode_ws(line.get_char(a))
        invariant
            n == s.len(),
            s == line@,
            a <= n,
            trim_start(s) == trim_start(s.skip(a as int)),
        decreases n - a,
    {
        assert(s.skip(a as int).drop_first() =~= s.skip(a + 1));
        a = a + 1;
    }
    assert(trim_start(s) == s.skip(a as int));
    let mut b: usize = n;
    while b > a && unicode_ws(line.get_char(b - 1))
        invariant
            n == s.len(),
            s == line@,
            a <= b <= n,
            trim(s) == trim_end(s.subrange(a as int, b as int)),
        decreases b,
    {
        assert(s.subrange(a as int, b as int).drop_last() =~= s.subrange(a as int, b - 1));
        b = b - 1;
    }
    (a, b)
}

/// The words of a line, once trimmed.
pub fn split_line(line: &str) -> (r: Vec<String>)
    ensures
        names_of(r@) == line_words(line@),
{
    let ghost s = line@;
    let (a, b) = trim_bounds(line);
    let n = line.unicode_len();
    let ghost t = s.subrange(a as int, b as int);
    assert(trim(s) == t);
    let mut r: Vec<String> = Vec::new();
    let mut i: usize = a;
    assert(t =~= s.subrange(i as int, b as int));
    while i < b
        invariant
            n == s.len(),
            s == line@,
            a <= i <= b <= n,
            t == trim(s),
            names_of(r@) + words(s.subrange(i as int, b as int)) == words(t),
        decreases b - i,
    {
        let ghost u = s.subrange(i as int, b as int);
        if ascii_ws(line.get_char(i)) {
            assert(u.drop_first() =~= s.subrange(i + 1, b as int));
            i = i + 1;
        } else {
            let mut j: usize = i;
            while j < b && !ascii_ws(line.get_char(j))
                invariant
                    n == s.len(),
                    s == line@,
                    i <= j <= b <= n,
                    u == s.subrange(i as int, b as int),
                    word_len(u) == (j - i) + word_len(s.subrange(j as int, b as int)),
                decreases b - j,
            {
                assert(s.subrange(j as int, b as int).drop_first() =~= s.subrange(j + 1, b as int));
                j = j + 1;
            }
            assert(word_len(s.subrange(j as int, b as int)) == 0);
            assert(word_len(u) == j - i);
            let w = line.substring_char(i, j).to_owned();
            proof {
                assert(u.take(word_len(u) as int) =~= s.subrange(i as int, j as int));
                assert(u.skip(word_len(u) as int) =~= s.subrange(j as int, b as int));
                assert(words(u) == seq![s.subrange(i as int, j as int)] + words(s.subrange(j as int, b as int)));
            }
            let ghost r0 = names_of(r@);
            r.push(w);
            assert(names_of(r@) =~= r0.push(w@));
            assert(names_of(r@) + words(s.subrange(j as int, b as int)) =~= r0 + words(u));
            i = j;
        }
    }
    assert(s.subrange(i as int, b as int).len() == 0);
    assert(names_of(r@) =~= words(t));
    r
}

/// Why a line does not declare a symbol.
#[derive(Debug, PartialEq, Eq)]
pub enum SymbolError {
    /// The line holds only white space.
    Empty,
    /// The trimmed line holds a space.
    ContainsSpace,
    /// The name was declared before.
    Duplicate(String),
}

/// The outcome of reading a symbol declaration: the trimmed line when it is not empty, holds
/// no space and is not among the names `seen`.
pub open spec fn symbol_line_ok(line: Seq<char>, seen: Seq<Seq<char>>, r: Result<Seq<char>, SymbolError>) -> bool {
    let s = trim(line);
    if s.len() == 0 {
        r == Err::<Seq<char>, SymbolError>(SymbolError::Empty)
    } else if s.contains(' ') {
        r == Err::<Seq<char>, SymbolError>(SymbolError::ContainsSpace)
    } else if seen.contains(s) {
        r is Err && r->Err_0 is Duplicate && r->Err_0->Duplicate_0@ == s
    } else {
        r == Ok::<Seq<char>, SymbolError>(s)
    }
}

/// Reads the declaration of a symbol: the line, trimmed, must be a nonempty name without a
/// space that `seen` does not hold.
pub fn symbol_line(line: &str, seen: &[String]) -> (r: Result<String, SymbolError>)
    ensures
        symbol_line_ok(
            line@,
            names_of(seen@),
            match r {
                Ok(x) => Ok(x@),
                Err(e) => Err(e),
            },
        ),
{
    let (a, b) = trim_bounds(line);
    let s = line.substring_char(a, b).to_owned();
    assert(s@ == trim(line@));
    if a == b {
        return Err(SymbolError::Empty);
    }
    let mut i: usize = a;
    while i < b
        invariant
            a <= i <= b <= line@.len(),
            a < b,
            s@ == line@.subrange(a as int, b as int),
            s@ == trim(line@),
            forall|j: int| a <= j < i ==> line@[j] != ' ',
        decreases b - i,
    {
        if line.get_char(i) == ' ' {
            proof {
                assert(s@[i - a] == ' ');
                assert(s@.contains(' '));
                assert(trim(line@).len() > 0);
            }
            return Err(SymbolError::ContainsSpace);
        }
        i = i + 1;
    }
    proof {
        if s@.contains(' ') {
            let j = choose|j: int| 0 <= j < s@.len() && s@[j] == ' ';
            assert(line@[a + j] == ' ');
        }
    }
    if contains_string(seen, &s) {
        return Err(SymbolError::Duplicate(s));
    }
    Ok(s)
}

impl Production {
    /// Whether a line reads as a production `A -> ...`.
    pub fn is_production_line(line: &str) -> (r: bool)
        ensures
            r == is_production_line(line@),
    {
        let w = split_line(line);
        let arrow = String::from_str("->");
        proof {
            reveal_strlit("->");
        }
        w.len() >= 2 && w[1] == arrow
    }

    /// The production a line `A -> x y ...` stands for: the words of the trimmed line after
    /// the arrow are non-terminals when `nonterminals` holds them, terminals otherwise.
    pub fn parse(line: &str, nonterminals: &[String]) -> (r: Production)
        requires
            is_production_line(line@),
        ensures
            r@ == production_of(line@, names_of(nonterminals@)),
    {
        let w = split_line(line);
        let ghost ws = line_words(line@);
        let ghost nts = names_of(nonterminals@);
        assert(w@[0]@ == ws[0]);
        let nonterminal = w[0].clone();
        let mut expansion: Vec<Symbol> = Vec::new();
        let mut i: usize = 2;
        while i < w.len()
            invariant
                names_of(w@) == ws,
                nts == names_of(nonterminals@),
                2 <= i <= w@.len(),
                expansion@.len() == i - 2,
                forall|k: int| 0 <= k < i - 2 ==> (#[trigger] expansion@[k])@ == classify(ws[k + 2], nts),
            decreases w@.len() - i,
        {
            let s = w[i].clone();
            assert(s@ == ws[i as int]);
            if contains_string(nonterminals, &s) {
                expansion.push(Symbol::NonTerminal(s));
            } else {
                expansion.push(Symbol::Terminal(s));
            }
            i = i + 1;
        }
        let r = Production { nonterminal, expansion };
        assert(crate::grammar::syms_of(r.expansion@) =~= ws.skip(2).map_values(|x: Seq<char>| classify(x, nts)));
        r
    }
}

} // verus!

verus! {

/// A declaration is refused as a repeat only when `seen` holds exactly its trimmed name, and a
/// nonempty trimmed name without a space that `seen` does not hold is accepted as it is.
pub proof fn lemma_symbol_line_law(line: Seq<char>, seen: Seq<Seq<char>>, r: Result<Seq<char>, SymbolError>)
    requires
        symbol_line_ok(line, seen, r),
    ensures
        (r is Err && r->Err_0 is Duplicate) ==> seen.contains(trim(line)) && r->Err_0->Duplicate_0@ == trim(line),
        (trim(line).len() > 0 && !trim(line).contains(' ') && !seen.contains(trim(line))) ==> r == Ok::<Seq<char>, SymbolError>(trim(line)),
        r is Ok ==> r->Ok_0 == trim(line) && !seen.contains(trim(line)),
        r is Ok ==> r->Ok_0.len() > 0 && !r->Ok_0.contains(' '),
        r == Err::<Seq<char>, SymbolError>(SymbolError::Empty) <==> trim(line).len() == 0,
        r == Err::<Seq<char>, SymbolError>(SymbolError::ContainsSpace) <==> trim(line).len() > 0 && trim(line).contains(' '),
{
}

/// Reading the same line again, once its name is among the names seen, refuses it as a repeat;
/// a line read with more names seen is accepted only if it was accepted with fewer.
pub proof fn lemma_symbol_line_twice(
    line: Seq<char>,
    seen: Seq<Seq<char>>,
    more: Seq<Seq<char>>,
    r1: Result<Seq<char>, SymbolError>,
    r2: Result<Seq<char>, SymbolError>,
)
    requires
        symbol_line_ok(line, seen, r1),
        symbol_line_ok(line, seen + more, r2),
    ensures
        r1 is Ok && more.contains(r1->Ok_0) ==> r2 is Err && r2->Err_0 is Duplicate,
        r2 is Ok ==> r1 == r2,
{
    if r1 is Ok && more.contains(r1->Ok_0) {
        let j = choose|j: int| 0 <= j < more.len() && more[j] == r1->Ok_0;
        assert((seen + more)[seen.len() + j] == trim(line));
    }
    if r2 is Ok {
        if seen.contains(trim(line)) {
            let j = choose|j: int| 0 <= j < seen.len() && seen[j] == trim(line);
            assert((seen + more)[j] == trim(line));
        }
    }
}

} // verus!

verus! {

/// The text holds no white space.
pub open spec fn no_ws(x: Seq<char>) -> bool {
    forall|i: int| 0 <= i < x.len() ==> !is_unicode_ws(#[trigger] x[i])
}

/// The words, each after a space.
pub open spec fn after_spaces(ws: Seq<Seq<char>>) -> Seq<char>
    decreases ws.len(),
{
    if ws.len() == 0 {
        Seq::empty()
    } else {
        seq![' '] + ws[0] + after_spaces(ws.skip(1))
    }
}

proof fn lemma_ascii_ws_unicode(c: char)
    ensures
        is_ascii_ws(c) ==> is_unicode_ws(c),
{
}

proof fn lemma_word_len_prefix(x: Seq<char>, rest: Seq<char>)
    requires
        no_ws(x),
        rest.len() == 0 || is_ascii_ws(rest[0]),
    ensures
        word_len(x + rest) == x.len(),
    decreases x.len(),
{
    if x.len() == 0 {
        assert(x + rest =~= rest);
    } else {
        lemma_ascii_ws_unicode(x[0]);
        assert((x + rest)[0] == x[0]);
        assert((x + rest).drop_first() =~= x.drop_first() + rest);
        assert(no_ws(x.drop_first())) by {
            assert forall|i: int| 0 <= i < x.drop_first().len() implies !is_unicode_ws(#[trigger] x.drop_first()[i]) by {
                assert(x.drop_first()[i] == x[i + 1]);
            }
        }
        lemma_word_len_prefix(x.drop_first(), rest);
    }
}

/// A word without white space, followed by nothing or by white space, is the first word.
proof fn lemma_words_prefix(x: Seq<char>, rest: Seq<char>)
    requires
        x.len() > 0,
        no_ws(x),
        rest.len() == 0 || is_ascii_ws(rest[0]),
    ensures
        words(x + rest) == seq![x] + words(rest),
{
    lemma_ascii_ws_unicode(x[0]);
    assert((x + rest)[0] == x[0]);
    lemma_word_len_prefix(x, rest);
    assert((x + rest).take(x.len() as int) =~= x);
    assert((x + rest).skip(x.len() as int) =~= rest);
}

/// The words of words each after a space are those words.
proof fn lemma_words_after_spaces(ws: Seq<Seq<char>>)
    requires
        forall|i: int| 0 <= i < ws.len() ==> (#[trigger] ws[i]).len() > 0 && no_ws(ws[i]),
    ensures
        words(after_spaces(ws)) == ws,
    decreases ws.len(),
{
    if ws.len() == 0 {
        assert(words(Seq::<char>::empty()) =~= Seq::<Seq<char>>::empty());
    } else {
        let rest = after_spaces(ws.skip(1));
        assert forall|i: int| 0 <= i < ws.skip(1).len() implies (#[trigger] ws.skip(1)[i]).len() > 0 && no_ws(ws.skip(1)[i]) by {
            assert(ws.skip(1)[i] == ws[i + 1]);
        }
        lemma_words_after_spaces(ws.skip(1));
        let s = seq![' '] + ws[0] + rest;
        assert(s.drop_first() =~= ws[0] + rest);
        assert(is_ascii_ws(s[0]));
        if ws.skip(1).len() > 0 {
            assert(rest[0] == ' ');
        }
        lemma_words_prefix(ws[0], rest);
        assert(ws =~= seq![ws[0]] + ws.skip(1));
    }
}

/// The trailing text of words each after a space ends in no white space.
proof fn lemma_after_spaces_end(ws: Seq<Seq<char>>)
    requires
        forall|i: int| 0 <= i < ws.len() ==> (#[trigger] ws[i]).len() > 0 && no_ws(ws[i]),
    ensures
        ws.len() > 0 ==> after_spaces(ws).len() > 0 && !is_unicode_ws(after_spaces(ws).last()),
    decreases ws.len(),
{
    if ws.len() > 0 {
        assert forall|i: int| 0 <= i < ws.skip(1).len() implies (#[trigger] ws.skip(1)[i]).len() > 0 && no_ws(ws.skip(1)[i]) by {
            assert(ws.skip(1)[i] == ws[i + 1]);
        }
        lemma_after_spaces_end(ws.skip(1));
        let rest = after_spaces(ws.skip(1));
        if ws.skip(1).len() == 0 {
            assert(rest.len() == 0);
            assert((seq![' '] + ws[0] + rest).last() == ws[0].last());
        } else {
            assert((seq![' '] + ws[0] + rest).last() == rest.last());
        }
    }
}

/// Every line `A -> x y ...` with a name `A` and words `x y ...`, none holding white space, is a
/// production line, for the production of `A` to those words; with no words after the arrow,
/// that is the empty production of `A`.
pub proof fn lemma_production_line_law(a: Seq<char>, ws: Seq<Seq<char>>, nts: Seq<Seq<char>>)
    requires
        a.len() > 0,
        no_ws(a),
        forall|i: int| 0 <= i < ws.len() ==> (#[trigger] ws[i]).len() > 0 && no_ws(ws[i]),
    ensures
        line_words(a + " ->"@ + after_spaces(ws)) == seq![a, "->"@] + ws,
        is_production_line(a + " ->"@ + after_spaces(ws)),
        production_of(a + " ->"@ + after_spaces(ws), nts) == (SpecProduction {
            lhs: a,
            rhs: ws.map_values(|x: Seq<char>| classify(x, nts)),
        }),
{
    reveal_strlit(" ->");
    reveal_strlit("->");
    let rest = after_spaces(ws);
    let line = a + " ->"@ + rest;
    lemma_after_spaces_end(ws);
    // Trimming leaves the line as it is.
    assert(!is_unicode_ws(line[0]));
    assert(trim_start(line) == line);
    if ws.len() == 0 {
        assert(line.last() == '>');
    } else {
        assert(line.last() == rest.last());
    }
    assert(trim_end(line) == line);
    assert(trim(line) == line);
    // The words.
    let arrow = "->"@;
    assert(arrow =~= seq!['-', '>']);
    assert(no_ws(arrow));
    lemma_words_after_spaces(ws);
    if ws.len() > 0 {
        assert(rest[0] == ' ');
    }
    lemma_words_prefix(arrow, rest);
    let tail = seq![' '] + arrow + rest;
    assert(is_ascii_ws(tail[0]));
    assert(tail.drop_first() =~= arrow + rest);
    assert(words(tail) == seq![arrow] + ws);
    assert(line =~= a + tail);
    lemma_words_prefix(a, tail);
    assert(line_words(line) =~= seq![a, arrow] + ws);
    assert((seq![a, arrow] + ws).skip(2) =~= ws);
}

} // verus!

verus! {

/// A production line reads as a name, the arrow, then the words of the right side, and stands
/// for the production of that name to those words.
pub proof fn lemma_production_line_words(line: Seq<char>, nts: Seq<Seq<char>>)
    requires
        is_production_line(line),
    ensures
        exists|a: Seq<char>, ws: Seq<Seq<char>>| #[trigger] line_words(line) == seq![a, "->"@] + ws
            && production_of(line, nts) == (SpecProduction { lhs: a, rhs: ws.map_values(|x: Seq<char>| classify(x, nts)) }),
{
    let w = line_words(line);
    let a = w[0];
    let ws = w.skip(2);
    assert(w =~= seq![a, "->"@] + ws);
}

} // verus!
