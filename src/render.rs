//! Rendering one person name under a name element's configuration.
use vstd::prelude::*;
use crate::style::{NameEl, NameForm, PersonName};
use crate::names::{form_of, initializes_with};

verus! {

/// The text of an optional string, empty where there is none.
pub open spec fn opt_text(s: Option<String>) -> Seq<char> {
    match s {
        Some(x) => x@,
        None => Seq::empty(),
    }
}

/// An optional particle followed by a space, or nothing.
pub open spec fn with_space(p: Option<String>) -> Seq<char> {
    match p {
        Some(x) => x@ + seq![' '],
        None => Seq::empty(),
    }
}

/// A space, then the suffix, or nothing.
pub open spec fn suffix_part(p: Option<String>) -> Seq<char> {
    match p {
        Some(x) => seq![' '] + x@,
        None => Seq::empty(),
    }
}

/// The family part of a name: the non-dropping particle, then the family name.
pub open spec fn family_part(n: PersonName) -> Seq<char> {
    with_space(n.non_dropping_particle) + opt_text(n.family)
}

/// Position `i` of `g` starts a word.
pub open spec fn word_start(g: Seq<char>, i: int) -> bool {
    g[i] != ' ' && (i == 0 || g[i - 1] == ' ')
}

/// The initials of the given names in `g`: the first letter of each word,
/// each followed by the delimiter `d`.
pub open spec fn initials(g: Seq<char>, d: Seq<char>) -> Seq<char>
    decreases g.len(),
{
    if g.len() == 0 {
        Seq::empty()
    } else {
        let i = g.len() - 1;
        initials(g.drop_last(), d) + if word_start(g, i) {
            seq![g[i]] + d
        } else {
            Seq::empty()
        }
    }
}

/// The rendering of person name `n` under name element `el`: a literal name as
/// it stands; the short form, or a name without given names, as its family
/// part; otherwise the given names (as initials where the element initializes
/// them with a delimiter), a space, the dropping particle, the family part and
/// the suffix.
pub open spec fn render_name(el: NameEl, n: PersonName) -> Seq<char> {
    match n.literal {
        Some(l) => l@,
        None => match n.given {
            Some(g) => if form_of(el) == NameForm::Short {
                family_part(n)
            } else {
                let gp = if initializes_with(el) {
                    initials(g@, opt_text(el.initialize_with))
                } else {
                    g@
                };
                gp + seq![' '] + with_space(n.dropping_particle) + family_part(n) + suffix_part(n.suffix)
            },
            None => family_part(n),
        },
    }
}

fn append_opt(out: &mut String, s: &Option<String>)
    ensures
        final(out)@ == old(out)@ + opt_text(*s),
{
    match s {
        Some(x) => out.append(x.as_str()),
        None => {
            assert(old(out)@ + Seq::<char>::empty() =~= old(out)@);
        },
    }
}

fn append_space(out: &mut String)
    ensures
        final(out)@ == old(out)@ + seq![' '],
{
    proof {
        reveal_strlit(" ");
    }
    out.append(" ");
}

fn append_with_space(out: &mut String, p: &Option<String>)
    ensures
        final(out)@ == old(out)@ + with_space(*p),
{
    match p {
        Some(x) => {
            out.append(x.as_str());
            append_space(out);
            assert(final(out)@ =~= old(out)@ + with_space(*p));
        },
        None => {
            assert(old(out)@ + Seq::<char>::empty() =~= old(out)@);
        },
    }
}

fn append_suffix(out: &mut String, p: &Option<String>)
    ensures
        final(out)@ == old(out)@ + suffix_part(*p),
{
    match p {
        Some(x) => {
            append_space(out);
            out.append(x.as_str());
            assert(final(out)@ =~= old(out)@ + suffix_part(*p));
        },
        None => {
            assert(old(out)@ + Seq::<char>::empty() =~= old(out)@);
        },
    }
}

/// Appends the initials of `g`, each followed by `d`.
fn append_initials(out: &mut String, g: &str, d: &str)
    ensures
        final(out)@ == old(out)@ + initials(g@, d@),
{
    let n = g.unicode_len();
    let mut i: usize = 0;
    assert(g@.subrange(0, 0) =~= Seq::<char>::empty());
    assert(old(out)@ + Seq::<char>::empty() =~= old(out)@);
    while i < n
        invariant
            n == g@.len(),
            0 <= i <= n,
            out@ == old(out)@ + initials(g@.subrange(0, i as int), d@),
        decreases n - i,
    {
        let c = g.get_char(i);
        let ghost before = out@;
        proof {
            let s = g@.subrange(0, i + 1);
            assert(s.drop_last() =~= g@.subrange(0, i as int));
            assert(s[i as int] == c);
            if i > 0 {
                assert(s[i - 1] == g@[i - 1]);
            }
        }
        let word = c != ' ' && (i == 0 || g.get_char(i - 1) == ' ');
        if word {
            out.append(g.substring_char(i, i + 1));
            out.append(d);
            assert(g@.subrange(i as int, i + 1) =~= seq![c]);
            assert(out@ =~= old(out)@ + initials(g@.subrange(0, i + 1), d@));
        } else {
            assert(out@ =~= old(out)@ + initials(g@.subrange(0, i + 1), d@));
        }
        i = i + 1;
    }
    assert(g@.subrange(0, n as int) =~= g@);
}

/// Renders person name `n` under name element `el`.
pub fn render_person_name(el: &NameEl, n: &PersonName) -> (r: String)
    ensures
        r@ == render_name(*el, *n),
{
    match &n.literal {
        Some(l) => {
            return l.clone();
        },
        None => {},
    }
    let mut out = String::new();
    match &n.given {
        Some(g) => {
            let short = match el.form {
                Some(f) => f == NameForm::Short,
                None => false,
            };
            if !short {
                let init = match el.initialize {
                    Some(b) => b,
                    None => false,
                };
                match &el.initialize_with {
                    Some(d) => {
                        if init {
                            append_initials(&mut out, g.as_str(), d.as_str());
                        } else {
                            out.append(g.as_str());
                        }
                    },
                    None => {
                        out.append(g.as_str());
                    },
                }
                append_space(&mut out);
                append_with_space(&mut out, &n.dropping_particle);
            }
        },
        None => {},
    }
    append_with_space(&mut out, &n.non_dropping_particle);
    append_opt(&mut out, &n.family);
    let long_with_given = match (&n.given, el.form) {
        (Some(_), Some(f)) => f != NameForm::Short,
        (Some(_), None) => true,
        (None, _) => false,
    };
    if long_with_given {
        append_suffix(&mut out, &n.suffix);
    }
    assert(out@ =~= render_name(*el, *n));
    out
}

} // verus!
