//! Asset-group configuration: the declared attributes are filtered by name,
//! validated (exactly one folder, an optional prefix, any number of
//! inclusion and exclusion patterns) and assembled into one configuration
//! value. Whether the folder exists on disk, and whether its path is
//! unicode, only the caller at the filesystem edge can see; the matching
//! error variants live here so every failure is reported the same way.

use vstd::prelude::*;

verus! {

/// One `name = "value"` attribute as declared on an asset group.
pub struct Attr {
    pub name: String,
    pub value: String,
}

/// A fatal build-time configuration failure.
#[derive(Clone, Copy, Debug, PartialEq, Eq, Structural)]
pub enum ConfigError {
    /// No folder attribute was declared.
    MissingFolder,
    /// More than one folder attribute was declared.
    DuplicateFolder,
    /// The declared folder does not exist on disk.
    NonexistentFolder,
    /// The folder path is not valid unicode.
    NonUnicodePath,
}

impl ConfigError {
    /// A human-readable description of the failure.
    pub fn message(&self) -> (r: String)
        ensures
            *self is MissingFolder ==> r@ == "an asset group must declare exactly one folder"@,
            *self is DuplicateFolder ==> r@ == "an asset group must declare exactly one folder"@,
            *self is NonexistentFolder ==> r@ == "the declared folder does not exist"@,
            *self is NonUnicodePath ==> r@ == "the folder path must be valid unicode"@,
    {
        match self {
            ConfigError::MissingFolder => "an asset group must declare exactly one folder".to_owned(),
            ConfigError::DuplicateFolder => "an asset group must declare exactly one folder".to_owned(),
            ConfigError::NonexistentFolder => "the declared folder does not exist".to_owned(),
            ConfigError::NonUnicodePath => "the folder path must be valid unicode".to_owned(),
        }
    }
}

/// The configuration of one asset group.
#[derive(Debug)]
pub struct EmbedConfig {
    /// The folder all relative paths resolve within.
    pub folder: String,
    /// Optional fixed string every public path carries.
    pub prefix: Option<String>,
    /// Glob patterns a candidate path must match one of, when any are given.
    pub includes: Vec<String>,
    /// Glob patterns that reject a path outright.
    pub excludes: Vec<String>,
}

impl EmbedConfig {
    /// The configured prefix, empty when none is set.
    pub open spec fn prefix_view(&self) -> Seq<char> {
        match self.prefix {
            Some(p) => p@,
            None => Seq::empty(),
        }
    }
}

/// The values of the attributes carrying this name, in declaration order.
pub open spec fn values_named(attrs: Seq<Attr>, name: Seq<char>) -> Seq<Seq<char>>
    decreases attrs.len(),
{
    if attrs.len() == 0 {
        Seq::empty()
    } else if attrs[0].name@ == name {
        seq![attrs[0].value@] + values_named(attrs.skip(1), name)
    } else {
        values_named(attrs.skip(1), name)
    }
}

/// Appending one attribute extends the filtered values at the back.
proof fn lemma_values_named_push(attrs: Seq<Attr>, a: Attr, name: Seq<char>)
    ensures
        values_named(attrs.push(a), name) == if a.name@ == name {
            values_named(attrs, name).push(a.value@)
        } else {
            values_named(attrs, name)
        },
    decreases attrs.len(),
{
    if attrs.len() == 0 {
        let s = attrs.push(a);
        assert(s[0] == a);
        assert(s.skip(1) =~= Seq::<Attr>::empty());
        assert(values_named(s.skip(1), name) =~= Seq::<Seq<char>>::empty());
        if a.name@ == name {
            assert(values_named(s, name) =~= seq![a.value@] + values_named(s.skip(1), name));
            assert(seq![a.value@] + Seq::<Seq<char>>::empty() =~= values_named(attrs, name).push(
                a.value@,
            ));
        }
    } else {
        assert(attrs.push(a).skip(1) =~= attrs.skip(1).push(a));
        lemma_values_named_push(attrs.skip(1), a, name);
        if attrs[0].name@ == name && a.name@ == name {
            assert(seq![attrs[0].value@] + values_named(attrs.skip(1), name).push(a.value@)
                =~= (seq![attrs[0].value@] + values_named(attrs.skip(1), name)).push(a.value@));
        }
    }
}

/// Collects the values of every attribute that carries the given name.
pub fn attribute_values(attrs: &Vec<Attr>, name: &str) -> (r: Vec<String>)
    ensures
        r.deep_view() == values_named(attrs@, name@),
{
    let mut out: Vec<String> = Vec::new();
    let mut i: usize = 0;
    proof {
        assert(attrs@.take(0) =~= Seq::<Attr>::empty());
    }
    while i < attrs.len()
        invariant
            i <= attrs@.len(),
            out.deep_view() == values_named(attrs@.take(i as int), name@),
        decreases attrs@.len() - i,
    {
        proof {
            assert(attrs@.take(i + 1 as int) =~= attrs@.take(i as int).push(attrs@[i as int]));
            lemma_values_named_push(attrs@.take(i as int), attrs@[i as int], name@);
        }
        let a = &attrs[i];
        if crate::paths::str_eq(a.name.as_str(), name) {
            out.push(a.value.clone());
            proof {
                assert(out.deep_view() =~= values_named(attrs@.take(i + 1 as int), name@));
            }
        } else {
            proof {
                assert(out.deep_view() =~= values_named(attrs@.take(i + 1 as int), name@));
            }
        }
        i = i + 1;
    }
    proof {
        assert(attrs@.take(i as int) =~= attrs@);
    }
    out
}

/// Validates the grouped attribute values and assembles the configuration:
/// exactly one folder is required; the first prefix, if any, is taken; the
/// pattern lists are taken as given.
pub fn parse_config(
    folders: Vec<String>,
    prefixes: Vec<String>,
    includes: Vec<String>,
    excludes: Vec<String>,
) -> (r: Result<EmbedConfig, ConfigError>)
    ensures
        folders@.len() == 0 ==> r == Result::<EmbedConfig, ConfigError>::Err(
            ConfigError::MissingFolder,
        ),
        folders@.len() > 1 ==> r == Result::<EmbedConfig, ConfigError>::Err(
            ConfigError::DuplicateFolder,
        ),
        folders@.len() == 1 ==> (r matches Ok(c) && c.folder@ == folders@[0]@ && (match c.prefix {
            Some(p) => prefixes@.len() > 0 && p@ == prefixes@[0]@,
            None => prefixes@.len() == 0,
        }) && c.includes.deep_view() == includes.deep_view() && c.excludes.deep_view()
            == excludes.deep_view()),
{
    if folders.len() == 0 {
        return Err(ConfigError::MissingFolder);
    }
    if folders.len() > 1 {
        return Err(ConfigError::DuplicateFolder);
    }
    let mut folders = folders;
    let folder = folders.remove(0);
    let mut prefixes = prefixes;
    let prefix = if prefixes.len() > 0 {
        Some(prefixes.remove(0))
    } else {
        None
    };
    Ok(EmbedConfig { folder, prefix, includes, excludes })
}

} // verus!
