//! Font families and the choice of a font for a text style.
//!
//! Fonts are known by the number under which the text renderer loaded them.
//! A family names a regular font and, optionally, bold, italic and bold
//! italic ones; a registry holds families by name, with a default family.
use vstd::prelude::*;
use crate::text_util::chars_equal;
use crate::text_util::str_to_chars;

verus! {

/// A font family: its fonts by style.
#[derive(Debug, Clone)]
pub struct FontFamily {
    pub name: String,
    pub regular_id: usize,
    pub bold_id: Option<usize>,
    pub italic_id: Option<usize>,
    pub bold_italic_id: Option<usize>,
}

/// The font of a family for a style: the styled font where the family has
/// one, the regular font otherwise.
pub open spec fn variant(f: FontFamily, bold: bool, italic: bool) -> usize {
    let styled = if bold && italic {
        f.bold_italic_id
    } else if bold {
        f.bold_id
    } else if italic {
        f.italic_id
    } else {
        None
    };
    match styled {
        Some(id) => id,
        None => f.regular_id,
    }
}

impl FontFamily {
    /// The font for the given style flags.
    pub fn get_variant(&self, bold: bool, italic: bool) -> (id: usize)
        ensures
            id == variant(*self, bold, italic),
    {
        let styled = if bold && italic {
            self.bold_italic_id
        } else if bold {
            self.bold_id
        } else if italic {
            self.italic_id
        } else {
            None
        };
        match styled {
            Some(id) => id,
            None => self.regular_id,
        }
    }
}

/// The font name chosen for a style, given whether the registry has a family
/// for the request and the requested family name.
pub open spec fn style_font_name(known: bool, family: Option<Seq<char>>, bold: bool, italic: bool) -> Seq<
    char,
> {
    if known {
        match family {
            Some(f) => f,
            None => "Roboto"@,
        }
    } else if bold && italic {
        "bold-italic"@
    } else if bold {
        "bold"@
    } else if italic {
        "italic"@
    } else {
        match family {
            Some(f) => f,
            None => "regular"@,
        }
    }
}

/// The family named `name` in `fs`, the first one with that name.
pub open spec fn lookup(fs: Seq<FontFamily>, name: Seq<char>) -> Option<FontFamily>
    decreases fs.len(),
{
    if fs.len() == 0 {
        None
    } else if fs[0].name@ == name {
        Some(fs[0])
    } else {
        lookup(fs.drop_first(), name)
    }
}

/// The families by name.
pub open spec fn family_map(fs: Seq<FontFamily>) -> Map<Seq<char>, FontFamily> {
    Map::new(|n: Seq<char>| lookup(fs, n) is Some, |n: Seq<char>| lookup(fs, n)->Some_0)
}

/// No two families share a name.
pub open spec fn names_distinct(fs: Seq<FontFamily>) -> bool {
    forall|i: int, j: int| 0 <= i < j < fs.len() ==> fs[i].name@ != fs[j].name@
}

/// Font families by name, with the name of the default family.
#[derive(Debug)]
pub struct FontRegistry {
    families: Vec<FontFamily>,
    default_family: String,
}

impl FontRegistry {
    pub closed spec fn families(&self) -> Map<Seq<char>, FontFamily> {
        family_map(self.families@)
    }

    pub closed spec fn default_name(&self) -> Seq<char> {
        self.default_family@
    }

    pub closed spec fn wf(&self) -> bool {
        names_distinct(self.families@)
    }

    /// An empty registry whose default family has the given name.
    pub fn new(default_family: String) -> (r: Self)
        ensures
            r.wf(),
            r.families() == Map::<Seq<char>, FontFamily>::empty(),
            r.default_name() == default_family@,
    {
        let r = FontRegistry { families: Vec::new(), default_family };
        assert(r.families() =~= Map::<Seq<char>, FontFamily>::empty());
        r
    }

    /// Registers a family, replacing any family of the same name.
    pub fn register_family(&mut self, family: FontFamily)
        requires
            old(self).wf(),
        ensures
            final(self).wf(),
            final(self).families() == old(self).families().insert(family.name@, family),
            final(self).default_name() == old(self).default_name(),
    {
        let n = self.families.len();
        let mut i: usize = 0;
        while i < n
            invariant
                i <= n,
                n == self.families@.len(),
                self.families@ == old(self).families@,
                self.default_family == old(self).default_family,
                names_distinct(self.families@),
                forall|k: int| 0 <= k < i ==> self.families@[k].name@ != family.name@,
            decreases n - i,
        {
            let a = str_to_chars(self.families[i].name.as_str());
            let b = str_to_chars(family.name.as_str());
            if chars_equal(&a, &b) {
                let ghost before = self.families@;
                self.families.set(i, family);
                proof {
                    lemma_replace(before, i as int, family);
                }
                return;
            }
            i = i + 1;
        }
        let ghost before = self.families@;
        self.families.push(family);
        proof {
            lemma_append_new(before, family);
        }
    }

    /// The family of that name, or the default family when the name is
    /// not registered or not given.
    pub fn get_family(&self, name: Option<&str>) -> (f: Option<&FontFamily>)
        ensures
            ({
                let key = match name {
                    Some(n) => n@,
                    None => self.default_name(),
                };
                let m = self.families();
                match f {
                    Some(x) => if m.contains_key(key) {
                        *x == m[key]
                    } else {
                        m.contains_key(self.default_name()) && *x == m[self.default_name()]
                    },
                    None => !m.contains_key(key) && !m.contains_key(self.default_name()),
                }
            }),
    {
        let key = match name {
            Some(n) => str_to_chars(n),
            None => str_to_chars(self.default_family.as_str()),
        };
        match self.find(&key) {
            Some(f) => Some(f),
            None => {
                let d = str_to_chars(self.default_family.as_str());
                self.find(&d)
            },
        }
    }

    /// The font for a family and style: `get_family`, then the variant.
    pub fn get_font_id(&self, family_name: Option<&str>, bold: bool, italic: bool) -> (id: Option<usize>)
        ensures
            ({
                let key = match family_name {
                    Some(n) => n@,
                    None => self.default_name(),
                };
                let m = self.families();
                id == if m.contains_key(key) {
                    Some(variant(m[key], bold, italic))
                } else if m.contains_key(self.default_name()) {
                    Some(variant(m[self.default_name()], bold, italic))
                } else {
                    None::<usize>
                }
            }),
    {
        match self.get_family(family_name) {
            Some(f) => Some(f.get_variant(bold, italic)),
            None => None,
        }
    }

    /// The name of the font to draw a style with: the requested family (or
    /// `Roboto`) when the registry knows a family for it; otherwise a name
    /// by style (`bold-italic`, `bold`, `italic`), or the requested family
    /// (or `regular`) for plain text.
    pub fn font_for_style<'a>(&self, family_name: Option<&'a str>, bold: bool, italic: bool) -> (r:
        Option<&'a str>)
        ensures
            r matches Some(s) && s@ == style_font_name(
                self.families().contains_key(
                    match family_name {
                        Some(n) => n@,
                        None => self.default_name(),
                    },
                ) || self.families().contains_key(self.default_name()),
                match family_name {
                    Some(n) => Some(n@),
                    None => None,
                },
                bold,
                italic,
            ),
    {
        match self.get_family(family_name) {
            Some(_) => match family_name {
                Some(n) => Some(n),
                None => Some("Roboto"),
            },
            None => {
                if bold && italic {
                    Some("bold-italic")
                } else if bold {
                    Some("bold")
                } else if italic {
                    Some("italic")
                } else {
                    match family_name {
                        Some(n) => Some(n),
                        None => Some("regular"),
                    }
                }
            },
        }
    }

    fn find(&self, name: &Vec<char>) -> (f: Option<&FontFamily>)
        ensures
            match f {
                Some(x) => self.families().contains_key(name@) && *x == self.families()[name@],
                None => !self.families().contains_key(name@),
            },
    {
        let n = self.families.len();
        let mut i: usize = 0;
        assert(self.families@.skip(0) =~= self.families@);
        while i < n
            invariant
                i <= n,
                n == self.families@.len(),
                lookup(self.families@, name@) == lookup(self.families@.skip(i as int), name@),
            decreases n - i,
        {
            let a = str_to_chars(self.families[i].name.as_str());
            assert(self.families@.skip(i as int)[0] == self.families@[i as int]);
            if chars_equal(&a, name) {
                return Some(&self.families[i]);
            }
            assert(self.families@.skip(i as int).drop_first() =~= self.families@.skip(i + 1));
            i = i + 1;
        }
        None
    }
}

proof fn lemma_lookup_hit(fs: Seq<FontFamily>, i: int)
    requires
        names_distinct(fs),
        0 <= i < fs.len(),
    ensures
        lookup(fs, fs[i].name@) == Some(fs[i]),
    decreases fs.len(),
{
    if i > 0 {
        assert(fs[0].name@ != fs[i].name@);
        lemma_lookup_hit(fs.drop_first(), i - 1);
    }
}

proof fn lemma_lookup_none(fs: Seq<FontFamily>, name: Seq<char>)
    requires
        forall|k: int| 0 <= k < fs.len() ==> fs[k].name@ != name,
    ensures
        lookup(fs, name) is None,
    decreases fs.len(),
{
    if fs.len() > 0 {
        lemma_lookup_none(fs.drop_first(), name);
    }
}

proof fn lemma_lookup_some(fs: Seq<FontFamily>, name: Seq<char>)
    requires
        lookup(fs, name) is Some,
    ensures
        exists|k: int| 0 <= k < fs.len() && fs[k] == lookup(fs, name)->Some_0 && fs[k].name@ == name,
    decreases fs.len(),
{
    if fs[0].name@ != name {
        lemma_lookup_some(fs.drop_first(), name);
        let k = choose|k: int|
            0 <= k < fs.drop_first().len() && fs.drop_first()[k] == lookup(fs.drop_first(), name)->Some_0
                && fs.drop_first()[k].name@ == name;
        assert(fs[k + 1] == fs.drop_first()[k]);
    }
}

/// Replacing the family at `i` by one of the same name updates the map.
proof fn lemma_replace(fs: Seq<FontFamily>, i: int, f: FontFamily)
    requires
        names_distinct(fs),
        0 <= i < fs.len(),
        fs[i].name@ == f.name@,
    ensures
        names_distinct(fs.update(i, f)),
        family_map(fs.update(i, f)) == family_map(fs).insert(f.name@, f),
{
    let g = fs.update(i, f);
    assert forall|a: int, b: int| 0 <= a < b < g.len() implies g[a].name@ != g[b].name@ by {
        assert(fs[a].name@ != fs[b].name@);
    }
    lemma_lookup_hit(g, i);
    assert forall|n: Seq<char>| n != f.name@ implies lookup(g, n) == lookup(fs, n) by {
        if lookup(fs, n) is Some {
            lemma_lookup_some(fs, n);
            let k = choose|k: int| 0 <= k < fs.len() && fs[k] == lookup(fs, n)->Some_0 && fs[k].name@ == n;
            assert(k != i);
            lemma_lookup_hit(fs, k);
            lemma_lookup_hit(g, k);
        } else {
            if lookup(g, n) is Some {
                lemma_lookup_some(g, n);
                let k = choose|k: int| 0 <= k < g.len() && g[k] == lookup(g, n)->Some_0 && g[k].name@ == n;
                assert(k != i);
                lemma_lookup_hit(fs, k);
            }
        }
    }
    assert(family_map(g) =~= family_map(fs).insert(f.name@, f));
}

/// Appending a family of a new name adds it to the map.
proof fn lemma_append_new(fs: Seq<FontFamily>, f: FontFamily)
    requires
        names_distinct(fs),
        forall|k: int| 0 <= k < fs.len() ==> fs[k].name@ != f.name@,
    ensures
        names_distinct(fs.push(f)),
        family_map(fs.push(f)) == family_map(fs).insert(f.name@, f),
{
    let g = fs.push(f);
    lemma_lookup_hit(g, fs.len() as int);
    assert forall|n: Seq<char>| n != f.name@ implies lookup(g, n) == lookup(fs, n) by {
        if lookup(fs, n) is Some {
            lemma_lookup_some(fs, n);
            let k = choose|k: int| 0 <= k < fs.len() && fs[k] == lookup(fs, n)->Some_0 && fs[k].name@ == n;
            lemma_lookup_hit(fs, k);
            lemma_lookup_hit(g, k);
        } else {
            if lookup(g, n) is Some {
                lemma_lookup_some(g, n);
                let k = choose|k: int| 0 <= k < g.len() && g[k] == lookup(g, n)->Some_0 && g[k].name@ == n;
                assert(k != fs.len());
                lemma_lookup_hit(fs, k);
            }
        }
    }
    assert(family_map(g) =~= family_map(fs).insert(f.name@, f));
}

/// A registered family is then found under its name, with its fonts, and
/// registering it again replaces it.
pub proof fn lemma_registered_family_is_found(
    m: Map<Seq<char>, FontFamily>,
    f: FontFamily,
    g: FontFamily,
    bold: bool,
    italic: bool,
)
    requires
        g.name@ == f.name@,
    ensures
        m.insert(f.name@, f).contains_key(f.name@),
        variant(m.insert(f.name@, f)[f.name@], bold, italic) == variant(f, bold, italic),
        m.insert(f.name@, f).insert(g.name@, g) == m.insert(g.name@, g),
{
    assert(m.insert(f.name@, f).insert(g.name@, g) =~= m.insert(g.name@, g));
}

} // verus!
