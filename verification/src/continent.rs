//! The continent routing buckets and their textual forms.

use vstd::prelude::*;

verus! {

/// A routing bucket: one of the seven real continents, or the `Default`
/// fallback bucket that requests are routed through when no continent
/// route is configured.
#[derive(Debug, Clone, Copy, PartialEq, Eq, Hash, Structural)]
pub enum Continent {
    Africa,
    Asia,
    Europe,
    NorthAmerica,
    Oceania,
    SouthAmerica,
    Antarctica,
    Default,
}

impl Continent {
    /// The spelling used in configuration files (capitalized camel case)
    /// and, for `Default`, the literal key `default`.
    pub open spec fn camel_name(self) -> Seq<char> {
        match self {
            Continent::Africa => "Africa"@,
            Continent::Asia => "Asia"@,
            Continent::Europe => "Europe"@,
            Continent::NorthAmerica => "NorthAmerica"@,
            Continent::Oceania => "Oceania"@,
            Continent::SouthAmerica => "SouthAmerica"@,
            Continent::Antarctica => "Antarctica"@,
            Continent::Default => "default"@,
        }
    }

    /// The spelling used by ripe-geo file names (lower kebab case).
    pub open spec fn kebab_name(self) -> Seq<char> {
        match self {
            Continent::Africa => "africa"@,
            Continent::Asia => "asia"@,
            Continent::Europe => "europe"@,
            Continent::NorthAmerica => "north-america"@,
            Continent::Oceania => "oceania"@,
            Continent::SouthAmerica => "south-america"@,
            Continent::Antarctica => "antarctica"@,
            Continent::Default => "default"@,
        }
    }

    /// The spelling a parse accepts: either of the two forms above.
    pub open spec fn parses_to(s: Seq<char>) -> Option<Continent> {
        if s == Continent::Africa.camel_name() || s == Continent::Africa.kebab_name() {
            Some(Continent::Africa)
        } else if s == Continent::Asia.camel_name() || s == Continent::Asia.kebab_name() {
            Some(Continent::Asia)
        } else if s == Continent::Europe.camel_name() || s == Continent::Europe.kebab_name() {
            Some(Continent::Europe)
        } else if s == Continent::NorthAmerica.camel_name()
            || s == Continent::NorthAmerica.kebab_name() {
            Some(Continent::NorthAmerica)
        } else if s == Continent::Oceania.camel_name() || s == Continent::Oceania.kebab_name() {
            Some(Continent::Oceania)
        } else if s == Continent::SouthAmerica.camel_name()
            || s == Continent::SouthAmerica.kebab_name() {
            Some(Continent::SouthAmerica)
        } else if s == Continent::Antarctica.camel_name()
            || s == Continent::Antarctica.kebab_name() {
            Some(Continent::Antarctica)
        } else if s == Continent::Default.camel_name() {
            Some(Continent::Default)
        } else {
            None
        }
    }
}

/// The spelling used in access logs and error messages (spaced words).
impl Continent {
    pub open spec fn spaced_name(self) -> Seq<char> {
        match self {
            Continent::Africa => "Africa"@,
            Continent::Asia => "Asia"@,
            Continent::Europe => "Europe"@,
            Continent::NorthAmerica => "North America"@,
            Continent::Oceania => "Oceania"@,
            Continent::SouthAmerica => "South America"@,
            Continent::Antarctica => "Antarctica"@,
            Continent::Default => "default"@,
        }
    }

    /// The log spelling of this continent.
    pub fn name(&self) -> (r: &'static str)
        ensures
            r@ == self.spaced_name(),
    {
        match self {
            Continent::Africa => "Africa",
            Continent::Asia => "Asia",
            Continent::Europe => "Europe",
            Continent::NorthAmerica => "North America",
            Continent::Oceania => "Oceania",
            Continent::SouthAmerica => "South America",
            Continent::Antarctica => "Antarctica",
            Continent::Default => "default",
        }
    }
}

/// ASCII whitespace, the only kind configuration names carry.
pub open spec fn is_space(c: char) -> bool {
    c == ' ' || c == '\t' || c == '\n' || c == '\r'
}

/// Drop leading whitespace.
pub open spec fn trim_front(s: Seq<char>) -> Seq<char>
    decreases s.len(),
{
    if s.len() > 0 && is_space(s[0]) {
        trim_front(s.drop_first())
    } else {
        s
    }
}

/// Drop trailing whitespace.
pub open spec fn trim_back(s: Seq<char>) -> Seq<char>
    decreases s.len(),
{
    if s.len() > 0 && is_space(s.last()) {
        trim_back(s.drop_last())
    } else {
        s
    }
}

/// Drop whitespace on both ends.
pub open spec fn trim_of(s: Seq<char>) -> Seq<char> {
    trim_back(trim_front(s))
}

proof fn lemma_trim_front_at(s: Seq<char>, i: int)
    requires
        0 <= i <= s.len(),
        forall|m: int| 0 <= m < i ==> is_space(#[trigger] s[m]),
        i < s.len() ==> !is_space(s[i]),
    ensures
        trim_front(s) == s.skip(i),
    decreases s.len(),
{
    if s.len() > 0 && is_space(s[0]) {
        assert(i >= 1);
        assert forall|m: int| 0 <= m < i - 1 implies is_space(#[trigger] s.drop_first()[m]) by {
            assert(s.drop_first()[m] == s[m + 1]);
        }
        if i - 1 < s.drop_first().len() {
            assert(s.drop_first()[i - 1] == s[i]);
        }
        lemma_trim_front_at(s.drop_first(), i - 1);
        assert(s.drop_first().skip(i - 1) =~= s.skip(i));
    } else {
        assert(i == 0);
        assert(s.skip(0) =~= s);
    }
}

proof fn lemma_trim_back_at(s: Seq<char>, j: int)
    requires
        0 <= j <= s.len(),
        forall|m: int| j <= m < s.len() ==> is_space(#[trigger] s[m]),
        j > 0 ==> !is_space(s[j - 1]),
    ensures
        trim_back(s) == s.take(j),
    decreases s.len(),
{
    if s.len() > 0 && is_space(s.last()) {
        assert(j < s.len());
        assert forall|m: int| j <= m < s.drop_last().len() implies is_space(
            #[trigger] s.drop_last()[m],
        ) by {
            assert(s.drop_last()[m] == s[m]);
        }
        lemma_trim_back_at(s.drop_last(), j);
        assert(s.drop_last().take(j) =~= s.take(j));
    } else {
        assert(j == s.len());
        assert(s.take(j) =~= s);
    }
}

/// Character-for-character equality of two text slices.
pub fn str_eq_exec(a: &str, b: &str) -> (r: bool)
    ensures
        r == (a@ == b@),
{
    let an = a.unicode_len();
    let bn = b.unicode_len();
    if an != bn {
        return false;
    }
    let mut i: usize = 0;
    while i < an
        invariant
            0 <= i <= an,
            an == a@.len(),
            an == b@.len(),
            forall|j: int| 0 <= j < i ==> a@[j] == b@[j],
        decreases an - i,
    {
        if a.get_char(i) != b.get_char(i) {
            return false;
        }
        i += 1;
    }
    proof {
        assert(a@ =~= b@);
    }
    true
}

/// Trim ASCII whitespace from both ends of a text slice.
pub fn trim_exec(s: &str) -> (r: &str)
    ensures
        r@ == trim_of(s@),
{
    let n = s.unicode_len();
    let mut i: usize = 0;
    while i < n && is_space_exec(s.get_char(i))
        invariant
            0 <= i <= n,
            n == s@.len(),
            forall|m: int| 0 <= m < i ==> is_space(#[trigger] s@[m]),
        decreases n - i,
    {
        i += 1;
    }
    let mut j: usize = n;
    while j > i && is_space_exec(s.get_char(j - 1))
        invariant
            i <= j <= n,
            n == s@.len(),
            forall|m: int| 0 <= m < i ==> is_space(#[trigger] s@[m]),
            i < n ==> !is_space(s@[i as int]),
            forall|m: int| j <= m < n ==> is_space(#[trigger] s@[m]),
        decreases j,
    {
        j -= 1;
    }
    let r = s.substring_char(i, j);
    proof {
        lemma_trim_front_at(s@, i as int);
        let t = s@.skip(i as int);
        if j == i {
            // Everything after the front padding is whitespace.
            assert forall|m: int| 0 <= m < t.len() implies is_space(#[trigger] t[m]) by {
                assert(t[m] == s@[i + m]);
            }
            lemma_trim_back_at(t, 0);
            assert(t.take(0) =~= s@.subrange(i as int, j as int));
        } else {
            assert forall|m: int| j - i <= m < t.len() implies is_space(#[trigger] t[m]) by {
                assert(t[m] == s@[i + m]);
            }
            assert(t[j - i - 1] == s@[j - 1]);
            lemma_trim_back_at(t, j - i);
            assert(t.take(j - i) =~= s@.subrange(i as int, j as int));
        }
    }
    r
}

/// Whether a character is ASCII whitespace.
pub fn is_space_exec(c: char) -> (r: bool)
    ensures
        r == is_space(c),
{
    c == ' ' || c == '\t' || c == '\n' || c == '\r'
}

impl Continent {
    /// Parse a continent name after trimming whitespace: the capitalized
    /// camel form used by configuration and the lower kebab form used by
    /// ripe-geo file names both parse; anything else is unknown.
    pub fn parse(s: &str) -> (r: Option<Continent>)
        ensures
            r == Continent::parses_to(trim_of(s@)),
    {
        let t = trim_exec(s);
        if str_eq_exec(t, "Africa") || str_eq_exec(t, "africa") {
            Some(Continent::Africa)
        } else if str_eq_exec(t, "Asia") || str_eq_exec(t, "asia") {
            Some(Continent::Asia)
        } else if str_eq_exec(t, "Europe") || str_eq_exec(t, "europe") {
            Some(Continent::Europe)
        } else if str_eq_exec(t, "NorthAmerica") || str_eq_exec(t, "north-america") {
            Some(Continent::NorthAmerica)
        } else if str_eq_exec(t, "Oceania") || str_eq_exec(t, "oceania") {
            Some(Continent::Oceania)
        } else if str_eq_exec(t, "SouthAmerica") || str_eq_exec(t, "south-america") {
            Some(Continent::SouthAmerica)
        } else if str_eq_exec(t, "Antarctica") || str_eq_exec(t, "antarctica") {
            Some(Continent::Antarctica)
        } else if str_eq_exec(t, "default") {
            Some(Continent::Default)
        } else {
            None
        }
    }
}

} // verus!
