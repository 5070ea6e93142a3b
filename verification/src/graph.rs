//! The options of module graph building and the paths of extracted modules.
use vstd::prelude::*;
use crate::text::chars_of;

verus! {

/// How decorators in TypeScript modules are transpiled.
#[derive(Debug, Clone, Copy, PartialEq, Eq, Structural)]
pub enum DecoratorType {
    /// The TC39 decorators proposal.
    Tc39,
    /// TypeScript's experimental decorators.
    Typescript,
    /// TypeScript's experimental decorators, with metadata.
    TypescriptWithMetadata,
}

impl Default for DecoratorType {
    fn default() -> (r: Self)
        ensures
            r == DecoratorType::Typescript,
    {
        DecoratorType::Typescript
    }
}

impl DecoratorType {
    pub fn is_use_decorators_proposal(self) -> (r: bool)
        ensures
            r == (self is Tc39),
    {
        match self {
            DecoratorType::Tc39 => true,
            _ => false,
        }
    }

    pub fn is_use_ts_decorators(self) -> (r: bool)
        ensures
            r == (self is Typescript || self is TypescriptWithMetadata),
    {
        match self {
            DecoratorType::Typescript | DecoratorType::TypescriptWithMetadata => true,
            _ => false,
        }
    }

    pub fn is_emit_metadata(self) -> (r: bool)
        ensures
            r == (self is TypescriptWithMetadata),
    {
        match self {
            DecoratorType::TypescriptWithMetadata => true,
            _ => false,
        }
    }
}

/// What a module graph check follows.
#[derive(Debug, Clone, Copy, PartialEq, Eq, Structural)]
pub struct GraphValidOptions {
    pub check_js: bool,
    pub follow_type_only: bool,
    pub is_vendoring: bool,
}

/// The kinds of error that a walk of a module graph reports, as far as the
/// check tells them apart.
#[derive(Debug, Clone, Copy, PartialEq, Eq, Structural)]
pub enum GraphErrorKind {
    /// A dynamically imported module that is missing.
    MissingDynamic,
    /// A resolution that would go from a secure to an insecure location.
    InvalidDowngrade,
    /// A remote module that imports a local one.
    InvalidLocalImport,
    /// Any other resolution error.
    Resolution,
    /// Any other module error.
    Module,
    /// Any other error.
    Other,
}

/// An error met while walking a module graph: its kind, its error class and
/// its message.
#[derive(Debug)]
pub struct GraphError {
    pub kind: GraphErrorKind,
    pub class: String,
    pub message: String,
}

/// Whether a check ignores errors of this kind: when vendoring, missing
/// dynamic imports, invalid downgrades and invalid local imports are let pass.
pub open spec fn ignored_error(kind: GraphErrorKind, is_vendoring: bool) -> bool {
    is_vendoring && (kind is MissingDynamic || kind is InvalidDowngrade || kind is InvalidLocalImport)
}

fn is_ignored_error(kind: GraphErrorKind, is_vendoring: bool) -> (r: bool)
    ensures
        r == ignored_error(kind, is_vendoring),
{
    is_vendoring && match kind {
        GraphErrorKind::MissingDynamic
        | GraphErrorKind::InvalidDowngrade
        | GraphErrorKind::InvalidLocalImport => true,
        _ => false,
    }
}

/// Which errors a check lets pass: none without vendoring; when vendoring,
/// exactly missing dynamic imports, invalid downgrades and invalid local
/// imports, so that a module, resolution or other error always fails it.
pub proof fn lemma_errors_let_pass(kind: GraphErrorKind, is_vendoring: bool)
    ensures
        !is_vendoring ==> !ignored_error(kind, is_vendoring),
        kind == GraphErrorKind::Module || kind == GraphErrorKind::Resolution || kind == GraphErrorKind::Other
            ==> !ignored_error(kind, is_vendoring),
        is_vendoring && (kind == GraphErrorKind::MissingDynamic || kind == GraphErrorKind::InvalidDowngrade || kind
            == GraphErrorKind::InvalidLocalImport) ==> ignored_error(kind, is_vendoring),
{
}

/// A graph passes the check exactly when none of its errors is other than
/// a missing dynamic import, an invalid downgrade or an invalid local import
/// met while vendoring: any other error, and without vendoring any error at
/// all, makes it fail.
pub proof fn lemma_graph_passes(errors: Seq<GraphError>, is_vendoring: bool)
    ensures
        (forall|i: int| 0 <= i < errors.len() ==> #[trigger] ignored_error(errors[i].kind, is_vendoring)) <==> (
        forall|i: int|
            0 <= i < errors.len() ==> is_vendoring && (#[trigger] errors[i].kind == GraphErrorKind::MissingDynamic
                || errors[i].kind == GraphErrorKind::InvalidDowngrade || errors[i].kind
                == GraphErrorKind::InvalidLocalImport)),
        !is_vendoring ==> ((forall|i: int| 0 <= i < errors.len() ==> #[trigger] ignored_error(errors[i].kind, is_vendoring))
            <==> errors.len() == 0),
{
    let all_let_pass = forall|i: int| 0 <= i < errors.len() ==> #[trigger] ignored_error(errors[i].kind, is_vendoring);
    let all_listed = forall|i: int|
        0 <= i < errors.len() ==> is_vendoring && (#[trigger] errors[i].kind == GraphErrorKind::MissingDynamic
            || errors[i].kind == GraphErrorKind::InvalidDowngrade || errors[i].kind
            == GraphErrorKind::InvalidLocalImport);
    if all_let_pass {
        assert forall|i: int| 0 <= i < errors.len() implies is_vendoring && (#[trigger] errors[i].kind
            == GraphErrorKind::MissingDynamic || errors[i].kind == GraphErrorKind::InvalidDowngrade
            || errors[i].kind == GraphErrorKind::InvalidLocalImport) by {
            assert(ignored_error(errors[i].kind, is_vendoring));
        }
    }
    if all_listed {
        assert forall|i: int| 0 <= i < errors.len() implies #[trigger] ignored_error(errors[i].kind, is_vendoring) by {
            assert(is_vendoring && (errors[i].kind == GraphErrorKind::MissingDynamic
                || errors[i].kind == GraphErrorKind::InvalidDowngrade || errors[i].kind
                == GraphErrorKind::InvalidLocalImport));
        }
    }
    if !is_vendoring && errors.len() > 0 {
        assert(!ignored_error(errors[0].kind, is_vendoring));
    }
}

/// Checks the errors that a walk of a module graph met, in the order met:
/// the graph is valid when every one is ignored, and otherwise the first one
/// that is not ignored is the error.
pub fn graph_valid(errors: &Vec<GraphError>, options: GraphValidOptions) -> (r: Result<(), GraphError>)
    ensures
        r is Ok <==> forall|i: int| 0 <= i < errors@.len() ==> #[trigger] ignored_error(errors@[i].kind, options.is_vendoring),
        r matches Err(e) ==> exists|i: int| {
            &&& 0 <= i < errors@.len()
            &&& !ignored_error(#[trigger] errors@[i].kind, options.is_vendoring)
            &&& forall|j: int| 0 <= j < i ==> #[trigger] ignored_error(errors@[j].kind, options.is_vendoring)
            &&& e.kind == errors@[i].kind
            &&& e.class@ == errors@[i].class@
            &&& e.message@ == errors@[i].message@
        },
{
    let mut i: usize = 0;
    while i < errors.len()
        invariant
            i <= errors@.len(),
            forall|j: int| 0 <= j < i ==> #[trigger] ignored_error(errors@[j].kind, options.is_vendoring),
        decreases errors@.len() - i,
    {
        let error = &errors[i];
        if !is_ignored_error(error.kind, options.is_vendoring) {
            return Err(GraphError { kind: error.kind, class: error.class.clone(), message: error.message.clone() });
        }
        i = i + 1;
    }
    Ok(())
}

/// Checks the errors of a walk made with the command line's options (type-only
/// imports followed, JavaScript not checked, not vendoring): with nothing ignored, the graph is valid exactly when the walk met no error,
/// and otherwise the first error met is the error.
pub fn graph_valid_with_cli_options(errors: &Vec<GraphError>) -> (r: Result<(), GraphError>)
    ensures
        r is Ok <==> errors@.len() == 0,
        r matches Err(e) ==> {
            &&& e.kind == errors@[0].kind
            &&& e.class@ == errors@[0].class@
            &&& e.message@ == errors@[0].message@
        },
{
    let options = GraphValidOptions { check_js: false, follow_type_only: true, is_vendoring: false };
    let r = graph_valid(errors, options);
    proof {
        if errors@.len() > 0 {
            assert(!ignored_error(errors@[0].kind, options.is_vendoring));
        }
    }
    r
}

/// Where a specifier resolves through an import map: nowhere, or to the
/// module specifier that the map gives (as text).
#[derive(Debug, Clone, PartialEq, Eq)]
pub enum MappedResolution {
    NotMapped,
    ImportMap(String),
}

impl MappedResolution {
    /// The specifier the map gave, if it gave one.
    pub fn into_specifier(self) -> (r: Option<String>)
        ensures
            match self {
                MappedResolution::NotMapped => r is None,
                MappedResolution::ImportMap(s) => r == Some(s),
            },
    {
        match self {
            MappedResolution::NotMapped => None,
            MappedResolution::ImportMap(specifier) => Some(specifier),
        }
    }
}

/// Resolves a specifier through the import map, given what the map answers
/// for it (`None` where there is no import map): the specifier the map gives,
/// the map's error, or no mapping where there is no map.
pub fn resolve_mapped<E>(import_map_answer: Option<Result<String, E>>) -> (r: Result<MappedResolution, E>)
    ensures
        match import_map_answer {
            None => r == Ok::<MappedResolution, E>(MappedResolution::NotMapped),
            Some(Ok(s)) => r == Ok::<MappedResolution, E>(MappedResolution::ImportMap(s)),
            Some(Err(e)) => r == Err::<MappedResolution, E>(e),
        },
{
    match import_map_answer {
        Some(Ok(value)) => Ok(MappedResolution::ImportMap(value)),
        Some(Err(err)) => Err(err),
        None => Ok(MappedResolution::NotMapped),
    }
}

/// The text `file:`.
pub open spec fn file_scheme() -> Seq<char> {
    seq!['f', 'i', 'l', 'e', ':']
}

/// Whether `s` starts with `prefix`.
pub open spec fn starts_with(s: Seq<char>, prefix: Seq<char>) -> bool {
    prefix.len() <= s.len() && s.subrange(0, prefix.len() as int) == prefix
}

/// Whether `s` starts with `file:`.
fn is_file_specifier(s: &str) -> (r: bool)
    ensures
        r == starts_with(s@, file_scheme()),
{
    let c = chars_of(s);
    let p = ['f', 'i', 'l', 'e', ':'];
    if c.len() < 5 {
        return false;
    }
    let mut i: usize = 0;
    while i < 5
        invariant
            i <= 5,
            c@.len() >= 5,
            c@ == s@,
            p@ == file_scheme(),
            forall|k: int| 0 <= k < i ==> c@[k] == file_scheme()[k],
        decreases 5 - i,
    {
        if c[i] != p[i] {
            assert(s@.subrange(0, 5)[i as int] != file_scheme()[i as int]);
            return false;
        }
        i = i + 1;
    }
    assert(s@.subrange(0, 5) =~= file_scheme());
    true
}

/// The specifiers of local files: those that start with `file:`, in order.
pub open spec fn file_specifiers(specifiers: Seq<Seq<char>>) -> Seq<Seq<char>>
    decreases specifiers.len(),
{
    if specifiers.len() == 0 {
        Seq::empty()
    } else {
        let p = file_specifiers(specifiers.drop_last());
        if starts_with(specifiers.last(), file_scheme()) {
            p.push(specifiers.last())
        } else {
            p
        }
    }
}

/// The module specifiers of a bundle that name local files.
pub fn extract_file_specifiers(specifiers: &[String]) -> (r: Vec<String>)
    ensures
        r@.len() == file_specifiers(specifiers@.map_values(|s: String| s@)).len(),
        forall|k: int| 0 <= k < r@.len() ==> #[trigger] r@[k]@ == file_specifiers(specifiers@.map_values(|s: String| s@))[k],
{
    let ghost all = specifiers@.map_values(|s: String| s@);
    let mut out: Vec<String> = Vec::new();
    let mut i: usize = 0;
    while i < specifiers.len()
        invariant
            i <= specifiers@.len(),
            all == specifiers@.map_values(|s: String| s@),
            out@.len() == file_specifiers(all.subrange(0, i as int)).len(),
            forall|k: int| 0 <= k < out@.len() ==> #[trigger] out@[k]@ == file_specifiers(all.subrange(0, i as int))[k],
        decreases specifiers@.len() - i,
    {
        assert(all.subrange(0, i + 1).drop_last() =~= all.subrange(0, i as int));
        assert(all.subrange(0, i + 1).last() == specifiers@[i as int]@);
        if is_file_specifier(specifiers[i].as_str()) {
            out.push(specifiers[i].clone());
        }
        i = i + 1;
    }
    assert(all.subrange(0, specifiers@.len() as int) =~= all);
    out
}

/// A path that is relative in Unix form: it starts neither with `/` nor with `\`.
pub open spec fn unix_relative(path: Seq<char>) -> bool {
    path.len() == 0 || (path[0] != '/' && path[0] != '\\')
}

/// The path itself, which must be relative in Unix form.
pub fn ensure_unix_relative_path(path: &str) -> (r: &str)
    requires
        unix_relative(path@),
    ensures
        r@ == path@,
{
    path
}

} // verus!
