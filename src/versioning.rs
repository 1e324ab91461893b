use std::cmp::Ordering;
use vstd::prelude::*;

verus! {

/// A terminal colour used to highlight one token of a version string.
#[derive(Clone, Copy, Debug, PartialEq, Eq, Structural)]
pub enum Shade {
    Red,
    Green,
    Yellow,
}

/// The ANSI "select graphic rendition" sequence for the given parameters.
pub open spec fn sgr(params: Seq<char>) -> Seq<char> {
    seq!['\x1b', '['] + params + seq!['m']
}

/// The sequence that resets all styling.
pub open spec fn reset_seq() -> Seq<char> {
    sgr(seq!['0'])
}

pub open spec fn shade_params(s: Shade) -> Seq<char> {
    match s {
        Shade::Red => seq!['3', '1'],
        Shade::Green => seq!['3', '2'],
        Shade::Yellow => seq!['3', '3'],
    }
}

/// `text` wrapped in the escape sequences of a style with parameters `params`.
pub open spec fn styled(params: Seq<char>, text: Seq<char>) -> Seq<char> {
    sgr(params) + text + reset_seq()
}

/// Relies on nu_ansi_term's `Color::paint` and the `Display` of the painted
/// string: a plain foreground colour writes `ESC[3<n>m`, the text, then `ESC[0m`.
#[verifier::external_body]
pub(crate) fn paint(shade: Shade, text: &str) -> (r: String)
    ensures
        r@ == styled(shade_params(shade), text@),
{
    let color = match shade {
        Shade::Red => nu_ansi_term::Color::Red,
        Shade::Green => nu_ansi_term::Color::Green,
        Shade::Yellow => nu_ansi_term::Color::Yellow,
    };
    format!("{}", color.paint(text))
}

/// Highlight colour of a token: the lower side red, the higher side green,
/// unchanged tokens yellow.
pub open spec fn shade_of_spec(o: Ordering) -> Shade {
    match o {
        Ordering::Less => Shade::Red,
        Ordering::Greater => Shade::Green,
        Ordering::Equal => Shade::Yellow,
    }
}

pub fn shade_of(o: Ordering) -> (r: Shade)
    ensures
        r == shade_of_spec(o),
{
    match o {
        Ordering::Less => Shade::Red,
        Ordering::Greater => Shade::Green,
        Ordering::Equal => Shade::Yellow,
    }
}

/// `parts` joined with `sep` between consecutive elements.
pub open spec fn join(parts: Seq<Seq<char>>, sep: Seq<char>) -> Seq<char>
    decreases parts.len(),
{
    if parts.len() == 0 {
        Seq::empty()
    } else if parts.len() == 1 {
        parts[0]
    } else {
        join(parts.drop_last(), sep) + sep + parts.last()
    }
}

pub proof fn lemma_join_push(parts: Seq<Seq<char>>, sep: Seq<char>, x: Seq<char>)
    ensures
        join(parts.push(x), sep) == if parts.len() == 0 {
            x
        } else {
            join(parts, sep) + sep + x
        },
{
    assert(parts.push(x).drop_last() =~= parts);
    if parts.len() == 0 {
        assert(parts.push(x)[0] == x);
    }
}

/// One dot-separated token of a version string with its highlight direction.
#[derive(Debug)]
pub struct VersionComponent(pub String, pub Ordering);

/// One version string, as its highlighted tokens.
#[derive(Debug)]
pub struct Version(pub Vec<VersionComponent>);

/// The version strings of one side of a package's change.
#[derive(Debug)]
pub struct VersionList(pub Vec<Version>);

impl View for VersionComponent {
    type V = (Seq<char>, Ordering);

    open spec fn view(&self) -> (Seq<char>, Ordering) {
        (self.0@, self.1)
    }
}

impl View for Version {
    type V = Seq<(Seq<char>, Ordering)>;

    open spec fn view(&self) -> Seq<(Seq<char>, Ordering)> {
        self.0@.map_values(|c: VersionComponent| c@)
    }
}

impl View for VersionList {
    type V = Seq<Seq<(Seq<char>, Ordering)>>;

    open spec fn view(&self) -> Seq<Seq<(Seq<char>, Ordering)>> {
        self.0@.map_values(|v: Version| v@)
    }
}

/// A token as it is displayed: its text in the colour of its direction.
pub open spec fn render_token(t: (Seq<char>, Ordering)) -> Seq<char> {
    styled(shade_params(shade_of_spec(t.1)), t.0)
}

/// A version as it is displayed: its highlighted tokens joined by dots.
pub open spec fn render_version(v: Seq<(Seq<char>, Ordering)>) -> Seq<char> {
    join(v.map_values(|t: (Seq<char>, Ordering)| render_token(t)), seq!['.'])
}

/// A list of versions as it is displayed: the versions joined by commas.
pub open spec fn render_version_list(l: Seq<Seq<(Seq<char>, Ordering)>>) -> Seq<char> {
    join(l.map_values(|v: Seq<(Seq<char>, Ordering)>| render_version(v)), seq![',', ' '])
}

impl VersionComponent {
    pub fn new(version: String, ordering: Ordering) -> (r: Self)
        ensures
            r@ == (version@, ordering),
    {
        Self(version, ordering)
    }

    pub fn to_string(&self) -> (r: String)
        ensures
            r@ == render_token(self@),
    {
        paint(shade_of(self.1), self.0.as_str())
    }
}

impl Version {
    pub fn new() -> (r: Self)
        ensures
            r@ == Seq::<(Seq<char>, Ordering)>::empty(),
    {
        Self(Vec::new())
    }

    pub fn push(&mut self, version: VersionComponent)
        ensures
            final(self)@ == old(self)@.push(version@),
    {
        self.0.push(version);
        proof {
            assert(final(self)@ =~= old(self)@.push(version@));
        }
    }

    pub fn to_string(&self) -> (r: String)
        ensures
            r@ == render_version(self@),
    {
        let ghost parts = self@.map_values(|t: (Seq<char>, Ordering)| render_token(t));
        let mut out = String::new();
        let mut i: usize = 0;
        while i < self.0.len()
            invariant
                i <= self.0.len(),
                parts.len() == self.0.len(),
                parts == self@.map_values(|t: (Seq<char>, Ordering)| render_token(t)),
                out@ == join(parts.subrange(0, i as int), seq!['.']),
            decreases self.0.len() - i,
        {
            let text = self.0[i].to_string();
            proof {
                assert(self@[i as int] == self.0@[i as int]@);
                assert(parts.subrange(0, i + 1) =~= parts.subrange(0, i as int).push(text@));
                lemma_join_push(parts.subrange(0, i as int), seq!['.'], text@);
            }
            let ghost before = out@;
            proof {
                reveal_strlit(".");
            }
            if i > 0 {
                out.append(".");
            }
            out.append(text.as_str());
            proof {
                if i == 0 {
                    assert(out@ =~= text@);
                } else {
                    assert(out@ =~= before + seq!['.'] + text@);
                }
            }
            i = i + 1;
        }
        proof {
            assert(parts.subrange(0, i as int) =~= parts);
        }
        out
    }
}

impl VersionList {
    pub fn new() -> (r: Self)
        ensures
            r@ == Seq::<Seq<(Seq<char>, Ordering)>>::empty(),
    {
        Self(Vec::new())
    }

    pub fn push(&mut self, version: Version)
        ensures
            final(self)@ == old(self)@.push(version@),
    {
        self.0.push(version);
        proof {
            assert(final(self)@ =~= old(self)@.push(version@));
        }
    }

    pub fn to_string(&self) -> (r: String)
        ensures
            r@ == render_version_list(self@),
    {
        let ghost parts = self@.map_values(|v: Seq<(Seq<char>, Ordering)>| render_version(v));
        let mut out = String::new();
        let mut i: usize = 0;
        while i < self.0.len()
            invariant
                i <= self.0.len(),
                parts.len() == self.0.len(),
                parts == self@.map_values(|v: Seq<(Seq<char>, Ordering)>| render_version(v)),
                out@ == join(parts.subrange(0, i as int), seq![',', ' ']),
            decreases self.0.len() - i,
        {
            let text = self.0[i].to_string();
            proof {
                assert(self@[i as int] == self.0@[i as int]@);
                assert(parts.subrange(0, i + 1) =~= parts.subrange(0, i as int).push(text@));
                lemma_join_push(parts.subrange(0, i as int), seq![',', ' '], text@);
            }
            let ghost before = out@;
            proof {
                reveal_strlit(", ");
            }
            if i > 0 {
                out.append(", ");
            }
            out.append(text.as_str());
            proof {
                if i == 0 {
                    assert(out@ =~= text@);
                } else {
                    assert(out@ =~= before + seq![',', ' '] + text@);
                }
            }
            i = i + 1;
        }
        proof {
            assert(parts.subrange(0, i as int) =~= parts);
        }
        out
    }
}

} // verus!
