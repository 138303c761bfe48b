//! The printer's output: text pieces and the bounds of highlighted spans, with their
//! plain-text and markup serialisations.
use vstd::prelude::*;
use vstd::string::*;

verus! {

/// One atom of a token stream.
pub enum Token {
    Text(String),
    AnnotationStart,
    AnnotationEnd,
}

/// The model of a token.
pub enum Tok {
    Text(Seq<char>),
    Start,
    End,
}

impl View for Token {
    type V = Tok;

    open spec fn view(&self) -> Tok {
        match self {
            Token::Text(s) => Tok::Text(s@),
            Token::AnnotationStart => Tok::Start,
            Token::AnnotationEnd => Tok::End,
        }
    }
}

pub open spec fn toks(ts: Seq<Token>) -> Seq<Tok> {
    Seq::new(ts.len(), |i: int| ts[i]@)
}

/// A sequence of tokens.
pub struct TokenStream {
    pub tokens: Vec<Token>,
}

impl View for TokenStream {
    type V = Seq<Tok>;

    open spec fn view(&self) -> Seq<Tok> {
        toks(self.tokens@)
    }
}

/// All the text of the tokens, in order.
pub open spec fn plain_text(ts: Seq<Tok>) -> Seq<char>
    decreases ts.len(),
{
    if ts.len() == 0 {
        Seq::empty()
    } else {
        plain_text(ts.drop_last()) + match ts.last() {
            Tok::Text(s) => s,
            _ => Seq::empty(),
        }
    }
}

/// How many highlighted spans are open after the tokens `ts`.
pub open spec fn depth(ts: Seq<Tok>) -> nat
    decreases ts.len(),
{
    if ts.len() == 0 {
        0
    } else {
        let d = depth(ts.drop_last());
        match ts.last() {
            Tok::Start => d + 1,
            Tok::End => if d > 0 {
                (d - 1) as nat
            } else {
                0
            },
            Tok::Text(_) => d,
        }
    }
}

pub open spec fn repeat(c: char, n: nat) -> Seq<char> {
    Seq::new(n, |i: int| c)
}

/// A line as long as the text, with `^` under each highlighted character and a space
/// under every other one.
pub open spec fn caret_line(ts: Seq<Tok>) -> Seq<char>
    decreases ts.len(),
{
    if ts.len() == 0 {
        Seq::empty()
    } else {
        caret_line(ts.drop_last()) + match ts.last() {
            Tok::Text(s) => repeat(if depth(ts.drop_last()) > 0 { '^' } else { ' ' }, s.len()),
            _ => Seq::empty(),
        }
    }
}

/// `s` without its trailing spaces.
pub open spec fn trim_end(s: Seq<char>) -> Seq<char>
    decreases s.len(),
{
    if s.len() > 0 && s.last() == ' ' {
        trim_end(s.drop_last())
    } else {
        s
    }
}

pub open spec fn has_annotation(ts: Seq<Tok>) -> bool {
    exists|i: int| 0 <= i < ts.len() && !(#[trigger] ts[i] is Text)
}

/// The plain serialisation: the text, and, where the stream holds annotation marks, a
/// second line of carets with its trailing spaces removed.
pub open spec fn plain_with_carets(ts: Seq<Tok>) -> Seq<char> {
    if has_annotation(ts) {
        plain_text(ts) + seq!['\n'] + trim_end(caret_line(ts))
    } else {
        plain_text(ts)
    }
}

/// The lines of the plain serialisation: the text, then the caret line where the
/// stream holds annotation marks.
pub open spec fn plain_lines(ts: Seq<Tok>) -> Seq<Seq<char>> {
    if has_annotation(ts) {
        seq![plain_text(ts), trim_end(caret_line(ts))]
    } else {
        seq![plain_text(ts)]
    }
}

/// Lines joined with newlines.
pub open spec fn join_lines(ls: Seq<Seq<char>>) -> Seq<char>
    decreases ls.len(),
{
    if ls.len() == 0 {
        Seq::empty()
    } else if ls.len() == 1 {
        ls[0]
    } else {
        join_lines(ls.drop_last()) + seq!['\n'] + ls.last()
    }
}

pub open spec fn strs(v: Seq<String>) -> Seq<Seq<char>> {
    Seq::new(v.len(), |i: int| v[i]@)
}

pub fn join_strings(lines: &Vec<String>) -> (r: String)
    ensures
        r@ == join_lines(strs(lines@)),
{
    let mut r = String::new();
    let mut i: usize = 0;
    proof {
        reveal_strlit("\n");
    }
    while i < lines.len()
        invariant
            i <= lines@.len(),
            r@ == join_lines(strs(lines@).subrange(0, i as int)),
            "\n"@ == seq!['\n'],
        decreases lines@.len() - i,
    {
        proof {
            let ls = strs(lines@);
            assert(ls.subrange(0, i + 1).drop_last() =~= ls.subrange(0, i as int));
            assert(ls.subrange(0, i + 1).last() == lines@[i as int]@);
        }
        if i > 0 {
            r.append("\n");
        }
        r.append(lines[i].as_str());
        proof {
            if i == 0 {
                assert(r@ =~= strs(lines@).subrange(0, 1)[0]);
            }
        }
        i = i + 1;
    }
    assert(strs(lines@).subrange(0, i as int) =~= strs(lines@));
    r
}

pub open spec fn highlight_open() -> Seq<char> {
    seq!['\\', 'h', 't', 'm', 'l', 'C', 'l', 'a', 's', 's', '{', 'h', 'l', '}', '{']
}

/// The markup serialisation: each highlighted span is wrapped in `\htmlClass{hl}{...}`.
pub open spec fn markup(ts: Seq<Tok>) -> Seq<char>
    decreases ts.len(),
{
    if ts.len() == 0 {
        Seq::empty()
    } else {
        markup(ts.drop_last()) + match ts.last() {
            Tok::Text(s) => s,
            Tok::Start => highlight_open(),
            Tok::End => seq!['}'],
        }
    }
}

fn append_repeated(line: &mut String, piece: &str, n: usize)
    requires
        piece@.len() == 1,
    ensures
        final(line)@ == old(line)@ + repeat(piece@[0], n as nat),
{
    let ghost start = line@;
    let mut i: usize = 0;
    while i < n
        invariant
            i <= n,
            piece@.len() == 1,
            line@ == start + repeat(piece@[0], i as nat),
        decreases n - i,
    {
        line.append(piece);
        i = i + 1;
        assert(line@ =~= start + repeat(piece@[0], i as nat));
    }
}

fn trim_end_exec(s: &String) -> (r: String)
    ensures
        r@ == trim_end(s@),
{
    let mut end = s.as_str().unicode_len();
    assert(s@.subrange(0, end as int) =~= s@);
    while end > 0 && s.as_str().get_char(end - 1) == ' '
        invariant
            end <= s@.len(),
            trim_end(s@) == trim_end(s@.subrange(0, end as int)),
        decreases end,
    {
        assert(s@.subrange(0, end as int).drop_last() =~= s@.subrange(0, end - 1));
        end = end - 1;
    }
    let r = s.as_str().substring_char(0, end).to_owned();
    proof {
        let t = s@.subrange(0, end as int);
        if t.len() > 0 {
            assert(t.last() == s@[end - 1]);
        }
    }
    r
}

impl TokenStream {
    /// All the text of the stream.
    pub fn plain_text(&self) -> (r: String)
        ensures
            r@ == plain_text(self@),
    {
        let mut text = String::new();
        let mut i: usize = 0;
        while i < self.tokens.len()
            invariant
                i <= self@.len(),
                self@.len() == self.tokens@.len(),
                text@ == plain_text(self@.subrange(0, i as int)),
            decreases self.tokens@.len() - i,
        {
            proof {
                assert(self@.subrange(0, i + 1).drop_last() =~= self@.subrange(0, i as int));
            }
            match &self.tokens[i] {
                Token::Text(s) => {
                    text.append(s.as_str());
                },
                _ => {},
            }
            i = i + 1;
        }
        assert(self@.subrange(0, i as int) =~= self@);
        text
    }

    /// The text, and a line of carets marking the highlighted characters when the
    /// stream holds annotation marks.
    pub fn plain_lines(&self) -> (r: Vec<String>)
        ensures
            strs(r@) == plain_lines(self@),
    {
        let mut text = String::new();
        let mut carets = String::new();
        let mut level: usize = 0;
        let mut seen = false;
        let mut i: usize = 0;
        proof {
            reveal_strlit("^");
            reveal_strlit(" ");
        }
        while i < self.tokens.len()
            invariant
                i <= self@.len(),
                self@.len() == self.tokens@.len(),
                text@ == plain_text(self@.subrange(0, i as int)),
                carets@ == caret_line(self@.subrange(0, i as int)),
                level == depth(self@.subrange(0, i as int)),
                level <= i,
                seen == has_annotation(self@.subrange(0, i as int)),
                "^"@ == seq!['^'],
                " "@ == seq![' '],
            decreases self.tokens@.len() - i,
        {
            let ghost pre = self@.subrange(0, i as int);
            proof {
                assert(self@.subrange(0, i + 1).drop_last() =~= pre);
                assert(self@.subrange(0, i + 1).last() == self@[i as int]);
            }
            match &self.tokens[i] {
                Token::Text(s) => {
                    text.append(s.as_str());
                    let n = s.as_str().unicode_len();
                    if level > 0 {
                        append_repeated(&mut carets, "^", n);
                    } else {
                        append_repeated(&mut carets, " ", n);
                    }
                    proof {
                        assert(has_annotation(self@.subrange(0, i + 1)) == has_annotation(pre)) by {
                            if has_annotation(self@.subrange(0, i + 1)) {
                                let j = choose|j: int| 0 <= j < i + 1 && !(#[trigger] self@.subrange(0, i + 1)[j] is Text);
                                assert(self@.subrange(0, i + 1)[j] == pre[j]);
                            }
                            if has_annotation(pre) {
                                let j = choose|j: int| 0 <= j < i && !(#[trigger] pre[j] is Text);
                                assert(self@.subrange(0, i + 1)[j] == pre[j]);
                            }
                        }
                    }
                },
                Token::AnnotationStart => {
                    level = level + 1;
                    seen = true;
                    proof {
                        assert(!(self@.subrange(0, i + 1)[i as int] is Text));
                    }
                },
                Token::AnnotationEnd => {
                    if level > 0 {
                        level = level - 1;
                    }
                    seen = true;
                    proof {
                        assert(!(self@.subrange(0, i + 1)[i as int] is Text));
                    }
                },
            }
            i = i + 1;
        }
        assert(self@.subrange(0, i as int) =~= self@);
        let mut lines: Vec<String> = Vec::new();
        lines.push(text);
        if seen {
            lines.push(trim_end_exec(&carets));
        }
        assert(strs(lines@) =~= plain_lines(self@));
        lines
    }

    /// The text, and under it a line of carets marking the highlighted characters
    /// when the stream holds annotation marks.
    pub fn to_plain_text(&self) -> (r: String)
        ensures
            r@ == plain_with_carets(self@),
    {
        let lines = self.plain_lines();
        let r = join_strings(&lines);
        proof {
            reveal_with_fuel(join_lines, 3);
            assert(strs(lines@).drop_last().len() <= 1);
        }
        r
    }

    /// The markup form: text as it is, each highlighted span wrapped in
    /// `\htmlClass{hl}{...}`.
    pub fn to_markup(&self) -> (r: String)
        ensures
            r@ == markup(self@),
    {
        let mut text = String::new();
        let mut i: usize = 0;
        proof {
            reveal_strlit("\\htmlClass{hl}{");
            reveal_strlit("}");
        }
        assert("\\htmlClass{hl}{"@ =~= highlight_open());
        while i < self.tokens.len()
            invariant
                i <= self@.len(),
                self@.len() == self.tokens@.len(),
                text@ == markup(self@.subrange(0, i as int)),
                "\\htmlClass{hl}{"@ == highlight_open(),
                "}"@ == seq!['}'],
            decreases self.tokens@.len() - i,
        {
            proof {
                assert(self@.subrange(0, i + 1).drop_last() =~= self@.subrange(0, i as int));
            }
            match &self.tokens[i] {
                Token::Text(s) => text.append(s.as_str()),
                Token::AnnotationStart => text.append("\\htmlClass{hl}{"),
                Token::AnnotationEnd => text.append("}"),
            }
            i = i + 1;
        }
        assert(self@.subrange(0, i as int) =~= self@);
        text
    }
}

} // verus!
