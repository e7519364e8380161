use vstd::prelude::*;

use crate::position::Pos;
use crate::word_regex::{compile_word_regex, find_word_matches, word_matches, word_pattern, WordRegex};

verus! {

/// Matches that are non-empty, lie within a string and do not overlap, in order.
pub open spec fn ordered_matches(ms: Seq<(usize, usize, Seq<char>)>) -> bool {
    &&& forall|k: int| 0 <= k < ms.len() ==> #[trigger] ms[k].0 < ms[k].1 && ms[k].1 <= isize::MAX
    &&& forall|k: int| 0 < k < ms.len() ==> ms[k - 1].1 <= #[trigger] ms[k].0
}

pub open spec fn is_newline(m: (usize, usize, Seq<char>)) -> bool {
    m.2 == seq!['\n']
}

/// Lexing state after the first `n` matches: the tokens so far, the current line
/// and the byte at which the current line starts.
pub open spec fn lex_run(ms: Seq<(usize, usize, Seq<char>)>, n: nat) -> (
    Seq<(Seq<char>, Pos)>,
    int,
    int,
)
    decreases n,
{
    if n == 0 || n > ms.len() {
        (Seq::empty(), 1, 0)
    } else {
        let prev = lex_run(ms, (n - 1) as nat);
        let m = ms[n - 1];
        if is_newline(m) {
            (prev.0, prev.1 + 1, m.1 as int)
        } else {
            let pos = Pos {
                offset: m.0,
                line: prev.1 as usize,
                column: (m.0 - prev.2 + 1) as usize,
            };
            (prev.0.push((m.2, pos)), prev.1, prev.2)
        }
    }
}

/// The tokens that a sequence of matches yields: every match but the newlines,
/// with its line and column.
pub open spec fn tokens_of(ms: Seq<(usize, usize, Seq<char>)>) -> Seq<(Seq<char>, Pos)> {
    lex_run(ms, ms.len()).0
}

pub open spec fn matches_view(ms: Seq<(usize, usize, String)>) -> Seq<(usize, usize, Seq<char>)> {
    ms.map_values(|m: (usize, usize, String)| (m.0, m.1, m.2@))
}

pub open spec fn tokens_view(ts: Seq<(String, Pos)>) -> Seq<(Seq<char>, Pos)> {
    ts.map_values(|t: (String, Pos)| (t.0@, t.1))
}

/// Turns the matches of the word pattern into tokens with their positions: a
/// newline advances the line and is not a token.
pub fn tokens_from_matches(ms: &Vec<(usize, usize, String)>) -> (r: Vec<(String, Pos)>)
    requires
        ordered_matches(matches_view(ms@)),
    ensures
        tokens_view(r@) == tokens_of(matches_view(ms@)),
{
    let ghost vm = matches_view(ms@);
    let newline = "\n".to_owned();
    proof {
        reveal_strlit("\n");
    }
    let mut out: Vec<(String, Pos)> = Vec::new();
    let mut line: usize = 1;
    let mut line_start: usize = 0;
    let mut i: usize = 0;
    while i < ms.len()
        invariant
            vm == matches_view(ms@),
            ordered_matches(vm),
            newline@ == seq!['\n'],
            0 <= i <= ms@.len(),
            tokens_view(out@) == lex_run(vm, i as nat).0,
            line as int == lex_run(vm, i as nat).1,
            line_start as int == lex_run(vm, i as nat).2,
            1 <= line <= i + 1,
            i == 0 ==> line_start == 0,
            i > 0 ==> line_start <= vm[i - 1].1 && i <= vm[i - 1].1,
        decreases ms@.len() - i,
    {
        let m = &ms[i];
        proof {
            assert(vm[i as int] == (m.0, m.1, m.2@));
            assert(vm[i as int].0 < vm[i as int].1);
        }
        if m.2 == newline {
            line = line + 1;
            line_start = m.1;
        } else {
            let pos = Pos { offset: m.0, line: line, column: m.0 - line_start + 1 };
            out.push((m.2.clone(), pos));
            proof {
                assert(tokens_view(out@) =~= lex_run(vm, i as nat).0.push((m.2@, pos)));
            }
        }
        i = i + 1;
    }
    proof {
        assert(ms@.len() == vm.len());
    }
    out
}

/// Lexing the same text twice gives the same tokens at the same positions.
pub proof fn lemma_lex_deterministic(a: Seq<char>, b: Seq<char>)
    requires
        a == b,
    ensures
        tokens_of(word_matches(a)) == tokens_of(word_matches(b)),
{
}

/// Splits text into word tokens, tracking line and column.
pub struct Lexer {
    regex: WordRegex,
}

impl Lexer {
    /// The pattern this lexer searches for.
    pub closed spec fn pattern(&self) -> Seq<char> {
        self.regex.pattern()
    }

    #[verifier::type_invariant]
    spec fn searches_words(&self) -> bool {
        self.regex.pattern() == word_pattern()
    }

    /// A lexer for the word pattern.
    pub fn new() -> (r: Lexer)
        ensures
            r.pattern() == word_pattern(),
    {
        let pattern = "[\\w]+|\n";
        proof {
            reveal_strlit("[\\w]+|\n");
            assert(pattern@ =~= word_pattern());
        }
        Lexer { regex: compile_word_regex(pattern) }
    }

    /// The tokens of a text, in order, with their positions.
    pub fn lex(&self, text: &str) -> (r: Vec<(String, Pos)>)
        ensures
            tokens_view(r@) == tokens_of(word_matches(text@)),
    {
        proof {
            use_type_invariant(self);
        }
        let ms = find_word_matches(&self.regex, text);
        tokens_from_matches(&ms)
    }
}

} // verus!
