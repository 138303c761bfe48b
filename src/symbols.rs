//! The named symbols that a constant may use, in their LaTeX and Unicode forms.
use vstd::prelude::*;
use vstd::string::*;

verus! {

pub open spec fn latex_pi() -> Seq<char> {
    seq!['\\', 'p', 'i']
}

pub open spec fn latex_rho() -> Seq<char> {
    seq!['\\', 'r', 'h', 'o']
}

/// The Unicode form of a LaTeX symbol name, where one is known.
pub open spec fn latex_to_unicode_spec(s: Seq<char>) -> Option<Seq<char>> {
    if s == latex_pi() {
        Some(seq!['π'])
    } else if s == latex_rho() {
        Some(seq!['ρ'])
    } else {
        None
    }
}

/// The LaTeX form of a Unicode symbol, or the name itself.
pub open spec fn canonical_name(s: Seq<char>) -> Seq<char> {
    if s == seq!['π'] {
        latex_pi()
    } else if s == seq!['ρ'] {
        latex_rho()
    } else {
        s
    }
}

pub open spec fn is_known_latex(s: Seq<char>) -> bool {
    latex_to_unicode_spec(s) is Some
}

pub open spec fn starts_with_backslash(s: Seq<char>) -> bool {
    s.len() > 0 && s[0] == '\\'
}

/// How a stored name is shown as plain text: its Unicode form where one is known.
pub open spec fn display_name(s: Seq<char>) -> Seq<char> {
    match latex_to_unicode_spec(s) {
        Some(u) => u,
        None => s,
    }
}

pub fn has_backslash_prefix(s: &str) -> (r: bool)
    ensures
        r == starts_with_backslash(s@),
{
    s.unicode_len() > 0 && s.get_char(0) == '\\'
}

fn chars_equal(s: &str, expected: &str) -> (r: bool)
    ensures
        r == (s@ == expected@),
{
    let n = s.unicode_len();
    if n != expected.unicode_len() {
        return false;
    }
    let mut i: usize = 0;
    while i < n
        invariant
            n == s@.len(),
            n == expected@.len(),
            i <= n,
            s@.subrange(0, i as int) == expected@.subrange(0, i as int),
        decreases n - i,
    {
        if s.get_char(i) != expected.get_char(i) {
            return false;
        }
        assert(s@.subrange(0, i + 1) =~= s@.subrange(0, i as int).push(s@[i as int]));
        assert(expected@.subrange(0, i + 1) =~= expected@.subrange(0, i as int).push(
            expected@[i as int],
        ));
        i = i + 1;
    }
    assert(s@ =~= s@.subrange(0, n as int));
    assert(expected@ =~= expected@.subrange(0, n as int));
    true
}

pub fn latex_to_unicode(s: &str) -> (r: Option<&'static str>)
    ensures
        r matches Some(u) ==> latex_to_unicode_spec(s@) == Some(u@),
        r is None ==> latex_to_unicode_spec(s@) is None,
{
    proof {
        reveal_strlit("\\pi");
        reveal_strlit("\\rho");
        reveal_strlit("π");
        reveal_strlit("ρ");
    }
    if chars_equal(s, "\\pi") {
        assert("\\pi"@ =~= latex_pi());
        Some("π")
    } else if chars_equal(s, "\\rho") {
        assert("\\rho"@ =~= latex_rho());
        assert("\\pi"@ =~= latex_pi());
        Some("ρ")
    } else {
        assert("\\rho"@ =~= latex_rho());
        assert("\\pi"@ =~= latex_pi());
        None
    }
}

pub fn unicode_to_latex(s: &str) -> (r: &str)
    ensures
        r@ == canonical_name(s@),
{
    proof {
        reveal_strlit("\\pi");
        reveal_strlit("\\rho");
        reveal_strlit("π");
        reveal_strlit("ρ");
    }
    if chars_equal(s, "π") {
        assert("π"@ =~= seq!['π']);
        assert("\\pi"@ =~= latex_pi());
        "\\pi"
    } else if chars_equal(s, "ρ") {
        assert("π"@ =~= seq!['π']);
        assert("\\rho"@ =~= latex_rho());
        "\\rho"
    } else {
        assert("π"@ =~= seq!['π']);
        assert("ρ"@ =~= seq!['ρ']);
        s
    }
}

} // verus!
