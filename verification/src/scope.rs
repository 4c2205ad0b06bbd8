//! The scope of the directory walk: what is visited and what is left out.

use vstd::prelude::*;
use vstd::string::StringExecFns;
use crate::cli::Cli;
use crate::order::strictly_ascending;
use crate::text::trim_space_end;

verus! {

/// The builder of override globs of the `ignore` crate.
#[verifier::external_type_specification]
#[verifier::external_body]
pub struct ExOverrideBuilder(ignore::overrides::OverrideBuilder);

/// A compiled set of override globs of the `ignore` crate.
#[verifier::external_type_specification]
#[verifier::external_body]
pub struct ExOverride(ignore::overrides::Override);

/// A compiled file-type selection of the `ignore` crate.
#[verifier::external_type_specification]
#[verifier::external_body]
pub struct ExTypes(ignore::types::Types);

/// The error of the `ignore` crate.
#[verifier::external_type_specification]
#[verifier::external_body]
pub struct ExIgnoreError(ignore::Error);

/// What the walker is told.
#[derive(Debug, PartialEq, Eq)]
pub struct WalkScope {
    /// The directory to walk.
    pub root: String,
    /// Hidden files are passed over.
    pub skip_hidden: bool,
    /// `.ignore` files are obeyed.
    pub use_ignore_files: bool,
    /// The ignore files of the version-control system are obeyed.
    pub use_vcs_ignore: bool,
    /// The override globs, in the order they are to be added.
    pub overrides: Vec<String>,
    /// The named file type to keep to, if any.
    pub file_type: Option<String>,
}

/// An exclude glob as an override: negated.
pub open spec fn negated(glob: Seq<char>) -> Seq<char> {
    seq!['!'] + glob
}

/// The override globs of a request: the include globs as they are, then the
/// exclude globs, negated. Later overrides win, so an exclude wins over an
/// include of the same path.
pub open spec fn override_globs(includes: Seq<Seq<char>>, excludes: Seq<Seq<char>>) -> Seq<Seq<char>> {
    includes + Seq::new(excludes.len(), |i: int| negated(excludes[i]))
}

/// Derives the scope of the walk from the request.
pub fn build_walker(cli: &Cli) -> (scope: WalkScope)
    ensures
        scope.root@ == cli.path@,
        scope.skip_hidden == !cli.hidden,
        scope.use_ignore_files == !cli.no_ignore,
        scope.use_vcs_ignore == (!cli.no_ignore && !cli.no_ignore_vcs),
        scope.overrides.deep_view() == override_globs(cli.glob.deep_view(), cli.exclude.deep_view()),
        scope.file_type.deep_view() == cli.file_type.deep_view(),
{
    let mut overrides: Vec<String> = Vec::new();
    let mut i: usize = 0;
    while i < cli.glob.len()
        invariant
            i <= cli.glob.len(),
            overrides.deep_view() == cli.glob.deep_view().take(i as int),
        decreases cli.glob.len() - i,
    {
        let ghost before = overrides.deep_view();
        overrides.push(cli.glob[i].clone());
        assert(overrides.deep_view() =~= before.push(cli.glob[i as int]@));
        assert(cli.glob.deep_view().take(i + 1) =~= before.push(cli.glob[i as int]@));
        i += 1;
    }
    assert(cli.glob.deep_view().take(cli.glob.len() as int) =~= cli.glob.deep_view());
    let ghost includes = cli.glob.deep_view();
    let ghost excludes = cli.exclude.deep_view();
    let mut k: usize = 0;
    assert(overrides.deep_view() =~= override_globs(includes, excludes.take(0)));
    while k < cli.exclude.len()
        invariant
            k <= cli.exclude.len(),
            includes == cli.glob.deep_view(),
            excludes == cli.exclude.deep_view(),
            overrides.deep_view() == override_globs(includes, excludes.take(k as int)),
        decreases cli.exclude.len() - k,
    {
        let ghost before = overrides.deep_view();
        let mut glob = String::new();
        glob.push('!');
        glob.append(cli.exclude[k].as_str());
        assert(glob@ =~= negated(cli.exclude[k as int]@));
        overrides.push(glob);
        proof {
            assert(excludes[k as int] == cli.exclude[k as int]@);
            assert(overrides.deep_view() =~= before.push(negated(excludes[k as int])));
            assert(override_globs(includes, excludes.take(k + 1)) =~= override_globs(
                includes,
                excludes.take(k as int),
            ).push(negated(excludes[k as int])));
        }
        k += 1;
    }
    assert(excludes.take(cli.exclude.len() as int) =~= excludes);
    WalkScope {
        root: cli.path.clone(),
        skip_hidden: !cli.hidden,
        use_ignore_files: !cli.no_ignore,
        use_vcs_ignore: !cli.no_ignore && !cli.no_ignore_vcs,
        overrides,
        file_type: cli.file_type.clone(),
    }
}

/// Why the scope could not be set up.
#[derive(Debug, PartialEq, Eq)]
pub enum ScopeError {
    /// An override glob was refused.
    InvalidGlob { message: String },
    /// The file type was refused: no type of that name is defined.
    InvalidType { message: String },
}

/// Whether the `ignore` crate takes `glob` as an override glob.
pub uninterp spec fn glob_accepted(glob: Seq<char>) -> bool;

/// The lines that a builder of overrides holds, in the order it took them.
pub uninterp spec fn builder_globs(b: ignore::overrides::OverrideBuilder) -> Seq<Seq<char>>;

/// Whether the `ignore` crate compiles a builder that holds `lines`.
pub uninterp spec fn overrides_compile(lines: Seq<Seq<char>>) -> bool;

/// The lines that a compiled set of overrides holds, in the order they
/// were taken.
pub uninterp spec fn override_lines(o: ignore::overrides::Override) -> Seq<Seq<char>>;

/// `glob` ends in a backslash and a space: a space that is meant to stay.
pub open spec fn ends_in_escaped_space(glob: Seq<char>) -> bool {
    glob.len() >= 2 && glob[glob.len() - 2] == '\\' && glob[glob.len() - 1] == ' '
}

/// What a builder keeps of a glob that it takes. A glob that begins with
/// `#` is a comment and leaves nothing. Else the white space at the end goes,
/// unless the glob ends in an escaped space, and what is then empty leaves
/// nothing either.
pub open spec fn kept_line(glob: Seq<char>) -> Option<Seq<char>> {
    let line = if ends_in_escaped_space(glob) {
        glob
    } else {
        trim_space_end(glob)
    };
    if glob.len() > 0 && glob[0] == '#' {
        None
    } else if line.len() == 0 {
        None
    } else {
        Some(line)
    }
}

/// What a builder holds once it has taken each of `globs` in turn.
pub open spec fn kept_lines(globs: Seq<Seq<char>>) -> Seq<Seq<char>>
    decreases globs.len(),
{
    if globs.len() == 0 {
        Seq::empty()
    } else {
        match kept_line(globs.last()) {
            Some(line) => kept_lines(globs.drop_last()).push(line),
            None => kept_lines(globs.drop_last()),
        }
    }
}

/// Calls `OverrideBuilder::new`, which keeps `root` as the directory that
/// the globs are relative to and starts without a glob.
#[verifier::external_body]
fn override_builder(root: &str) -> (b: ignore::overrides::OverrideBuilder)
    ensures
        builder_globs(b) == Seq::<Seq<char>>::empty(),
{
    ignore::overrides::OverrideBuilder::new(root)
}

/// Calls `OverrideBuilder::add`, which reads `glob` like a line of an ignore
/// file. For a builder as `override_builder` makes it, on which no setting
/// is changed, whether the glob is taken depends on the glob alone. A comment or a
/// blank line is taken and leaves the builder as it is; any other glob that
/// is taken is kept, without the white space at its end, behind those kept
/// before. A glob that is refused leaves the builder as it is.
#[verifier::external_body]
fn override_add(b: &mut ignore::overrides::OverrideBuilder, glob: &str) -> (r: Result<(), ignore::Error>)
    ensures
        r is Ok <==> glob_accepted(glob@),
        r is Ok ==> builder_globs(*final(b)) == match kept_line(glob@) {
            Some(line) => builder_globs(*old(b)).push(line),
            None => builder_globs(*old(b)),
        },
        r is Err ==> builder_globs(*final(b)) == builder_globs(*old(b)),
{
    b.add(glob).map(|_| ())
}

/// Calls `OverrideBuilder::build`, which compiles the lines that the builder
/// holds. Whether they compile depends on those lines alone. The set that
/// comes back holds a copy of the builder's lines.
#[verifier::external_body]
fn override_build(b: &ignore::overrides::OverrideBuilder) -> (r: Result<
    ignore::overrides::Override,
    ignore::Error,
>)
    ensures
        r is Ok <==> overrides_compile(builder_globs(*b)),
        r matches Ok(o) ==> override_lines(o) == builder_globs(*b),
{
    b.build()
}

/// The text of an `ignore::Error`, through its `Display`.
#[verifier::external_body]
fn ignore_error_text(e: &ignore::Error) -> (s: String) {
    e.to_string()
}

/// Every glob of `globs` is one that the `ignore` crate takes.
pub open spec fn all_accepted(globs: Seq<Seq<char>>) -> bool {
    forall|i: int| 0 <= i < globs.len() ==> glob_accepted(#[trigger] globs[i])
}

/// Compiles the override globs of `scope`, in their order. The set is made
/// exactly when every glob is taken and what the builder then holds
/// compiles, and it holds what the builder kept of each glob, in the order
/// of the globs. A glob that is refused fails the whole scope: nothing is
/// walked with part of the globs.
pub fn build_overrides(scope: &WalkScope) -> (r: Result<ignore::overrides::Override, ScopeError>)
    ensures
        r is Ok <==> all_accepted(scope.overrides.deep_view()) && overrides_compile(
            kept_lines(scope.overrides.deep_view()),
        ),
        r matches Ok(o) ==> override_lines(o) == kept_lines(scope.overrides.deep_view()),
        r matches Err(e) ==> e is InvalidGlob,
{
    let ghost globs = scope.overrides.deep_view();
    let mut builder = override_builder(scope.root.as_str());
    let mut i: usize = 0;
    while i < scope.overrides.len()
        invariant
            i <= scope.overrides.len(),
            globs == scope.overrides.deep_view(),
            all_accepted(globs.take(i as int)),
            builder_globs(builder) == kept_lines(globs.take(i as int)),
        decreases scope.overrides.len() - i,
    {
        proof {
            assert(globs[i as int] == scope.overrides[i as int]@);
            assert(globs.take(i + 1).drop_last() =~= globs.take(i as int));
            assert(globs.take(i + 1).last() == globs[i as int]);
        }
        match override_add(&mut builder, scope.overrides[i].as_str()) {
            Ok(_) => {},
            Err(e) => {
                return Err(ScopeError::InvalidGlob { message: ignore_error_text(&e) });
            },
        }
        proof {
            let next = globs.take(i + 1);
            assert(forall|j: int| 0 <= j < i ==> next[j] == globs.take(i as int)[j]);
        }
        i += 1;
    }
    assert(globs.take(scope.overrides.len() as int) =~= globs);
    match override_build(&builder) {
        Ok(overrides) => Ok(overrides),
        Err(e) => Err(ScopeError::InvalidGlob { message: ignore_error_text(&e) }),
    }
}

/// A named file type and the globs that make it up.
#[derive(Debug, PartialEq, Eq)]
pub struct TypeDef {
    /// The name of the type.
    pub name: String,
    /// The globs of the files of this type.
    pub globs: Vec<String>,
}

/// The names of `defs`, in their order.
pub open spec fn type_names(defs: Seq<TypeDef>) -> Seq<Seq<char>> {
    Seq::new(defs.len(), |i: int| defs[i].name@)
}

/// `defs` has the shape of the table of built-in types: it is not empty,
/// its names ascend strictly in byte-wise order, and every type has a glob.
pub open spec fn is_registry(defs: Seq<TypeDef>) -> bool {
    &&& defs.len() > 0
    &&& strictly_ascending(type_names(defs))
    &&& forall|i: int| 0 <= i < defs.len() ==> (#[trigger] defs[i]).globs@.len() > 0
}

/// Calls `TypesBuilder::new`, `add_defaults` and `definitions`, and copies
/// name and globs out of each definition. `add_defaults` fills the builder
/// from a table that is not empty and gives every type at least one glob;
/// `definitions` hands the types out once each, sorted by name.
#[verifier::external_body]
fn default_types() -> (defs: Vec<TypeDef>)
    ensures
        is_registry(defs@),
{
    let mut builder = ignore::types::TypesBuilder::new();
    builder.add_defaults();
    builder.definitions().iter().map(
        |def| TypeDef { name: def.name().to_string(), globs: def.globs().to_vec() },
    ).collect()
}

/// `parts` joined by a comma and a space.
pub open spec fn comma_joined(parts: Seq<Seq<char>>) -> Seq<char>
    decreases parts.len(),
{
    if parts.len() == 0 {
        Seq::empty()
    } else if parts.len() == 1 {
        parts[0]
    } else {
        comma_joined(parts.drop_last()) + ", "@ + parts.last()
    }
}

/// The line that lists one file type: its name, a colon, its globs.
pub open spec fn type_line(def: TypeDef) -> Seq<char> {
    def.name@ + ": "@ + comma_joined(def.globs.deep_view())
}

/// `lines` lists `defs`, one line per type, in the order given.
pub open spec fn lists_types(defs: Seq<TypeDef>, lines: Seq<Seq<char>>) -> bool {
    &&& lines.len() == defs.len()
    &&& forall|i: int| 0 <= i < defs.len() ==> #[trigger] lines[i] == type_line(defs[i])
}

/// `lines` is the listing of a table of built-in types.
pub open spec fn lists_registry(defs: Seq<TypeDef>, lines: Seq<Seq<char>>) -> bool {
    is_registry(defs) && lists_types(defs, lines)
}

/// The listing of the file types that are built in: one line per type, in
/// ascending order of the names, made without walking anything. There is
/// always something to list.
pub fn type_list() -> (lines: Vec<String>)
    ensures
        lines.len() > 0,
        exists|defs: Seq<TypeDef>| #[trigger] lists_registry(defs, lines.deep_view()),
{
    let defs = default_types();
    let lines = type_lines(&defs);
    assert(lists_registry(defs@, lines.deep_view()));
    lines
}

/// The listing of `defs`, one line per type, in the order given.
pub fn type_lines(defs: &Vec<TypeDef>) -> (lines: Vec<String>)
    ensures
        lists_types(defs@, lines.deep_view()),
{
    let mut lines: Vec<String> = Vec::new();
    let mut i: usize = 0;
    while i < defs.len()
        invariant
            i <= defs.len(),
            lines.len() == i,
            forall|j: int| 0 <= j < i ==> (#[trigger] lines[j])@ == type_line(defs[j]),
        decreases defs.len() - i,
    {
        let def = &defs[i];
        let ghost globs = def.globs.deep_view();
        let mut line = String::new();
        line.append(def.name.as_str());
        line.append(": ");
        let ghost head = line@;
        let mut k: usize = 0;
        assert(line@ =~= head + comma_joined(globs.take(0)));
        while k < def.globs.len()
            invariant
                k <= def.globs.len(),
                globs == def.globs.deep_view(),
                line@ == head + comma_joined(globs.take(k as int)),
            decreases def.globs.len() - k,
        {
            let ghost before = line@;
            if k > 0 {
                line.append(", ");
            }
            line.append(def.globs[k].as_str());
            proof {
                let next = globs.take(k + 1);
                assert(next.drop_last() =~= globs.take(k as int));
                assert(next.last() == def.globs[k as int]@);
                if k == 0 {
                    assert(comma_joined(globs.take(0)) =~= Seq::<char>::empty());
                    assert(line@ =~= head + comma_joined(next));
                } else {
                    assert(line@ =~= head + (comma_joined(globs.take(k as int)) + ", "@ + next.last()));
                }
            }
            k += 1;
        }
        assert(globs.take(def.globs.len() as int) =~= globs);
        lines.push(line);
        i += 1;
    }
    assert(forall|j: int| 0 <= j < lines.len() ==> lines.deep_view()[j] == lines[j]@);
    lines
}

/// Whether the `ignore` crate can select the file type `name` among the
/// types that are built in.
pub uninterp spec fn type_selectable(name: Seq<char>) -> bool;

/// The names of the file types that a compiled selection selects.
pub uninterp spec fn selected_types(t: ignore::types::Types) -> Set<Seq<char>>;

/// What selecting `name` selects, where that is one type: `all` stands for
/// every type that is built in.
pub open spec fn selects(t: ignore::types::Types, name: Seq<char>) -> bool {
    name != "all"@ ==> selected_types(t) == set![name]
}

/// Calls `TypesBuilder::new`, `add_defaults`, `select` and `build`. Whether
/// the selection is taken depends on the name alone. A name other than
/// `all` makes one selection, of the type of that name.
#[verifier::external_body]
fn build_types(name: &str) -> (r: Result<ignore::types::Types, ignore::Error>)
    ensures
        r is Ok <==> type_selectable(name@),
        r matches Ok(t) ==> (name@ != "all"@ ==> selected_types(t) == set![name@]),
{
    let mut builder = ignore::types::TypesBuilder::new();
    builder.add_defaults();
    builder.select(name);
    builder.build()
}

/// Compiles the selection of the file type that a request names: of that
/// type alone, or of every type for `all`. A name that is not defined fails
/// the whole scope.
pub fn select_file_type(name: &str) -> (r: Result<ignore::types::Types, ScopeError>)
    ensures
        r is Ok <==> type_selectable(name@),
        r matches Ok(t) ==> selects(t, name@),
        r matches Err(e) ==> e is InvalidType,
{
    match build_types(name) {
        Ok(types) => Ok(types),
        Err(e) => Err(ScopeError::InvalidType { message: ignore_error_text(&e) }),
    }
}

/// The compiled parts of a scope, ready for the walker.
pub struct CompiledScope {
    /// The override globs, where the scope has any.
    pub overrides: Option<ignore::overrides::Override>,
    /// The selection of the file type, where the scope names one.
    pub types: Option<ignore::types::Types>,
}

/// The override globs of a scope can be compiled: there are none, or every
/// one is taken and what is kept of them compiles.
pub open spec fn globs_compile(globs: Seq<Seq<char>>) -> bool {
    globs.len() == 0 || (all_accepted(globs) && overrides_compile(kept_lines(globs)))
}

/// The file type of a scope can be selected: none is named, or the one
/// named is defined.
pub open spec fn type_compiles(file_type: Option<String>) -> bool {
    file_type matches Some(name) ==> type_selectable(name@)
}

/// `compiled` is what `scope` asks for: overrides exactly where the scope
/// has globs, holding what is kept of them, and a selection exactly where
/// the scope names a file type, of that type.
pub open spec fn compiles_to(scope: WalkScope, compiled: CompiledScope) -> bool {
    &&& compiled.overrides is Some <==> scope.overrides.deep_view().len() > 0
    &&& compiled.overrides matches Some(o) ==> override_lines(o) == kept_lines(scope.overrides.deep_view())
    &&& compiled.types is Some <==> scope.file_type is Some
    &&& compiled.types matches Some(t) ==> (scope.file_type matches Some(name) && selects(t, name@))
}

/// Compiles a scope for the walker: first the override globs, where there
/// are any, then the file type, where one is named. An invalid glob or an
/// unknown type fails the scope as a whole, the glob first where both are
/// wrong, and nothing is handed out to walk with.
pub fn compile_scope(scope: &WalkScope) -> (r: Result<CompiledScope, ScopeError>)
    ensures
        r is Ok <==> globs_compile(scope.overrides.deep_view()) && type_compiles(scope.file_type),
        r matches Ok(compiled) ==> compiles_to(*scope, compiled),
        r matches Err(e) ==> (e is InvalidGlob <==> !globs_compile(scope.overrides.deep_view())),
        r matches Err(e) ==> (e is InvalidType <==> globs_compile(scope.overrides.deep_view())),
{
    let overrides = if scope.overrides.len() > 0 {
        match build_overrides(scope) {
            Ok(o) => Some(o),
            Err(e) => {
                return Err(e);
            },
        }
    } else {
        None
    };
    let types = match &scope.file_type {
        Some(name) => match select_file_type(name.as_str()) {
            Ok(t) => Some(t),
            Err(e) => {
                return Err(e);
            },
        },
        None => None,
    };
    Ok(CompiledScope { overrides, types })
}

/// Makes and compiles the scope of a request. Fails where an include glob
/// or an exclude glob is invalid or the file type is unknown; then there is
/// no scope, and nothing is walked.
pub fn request_scope(cli: &Cli) -> (r: Result<(WalkScope, CompiledScope), ScopeError>)
    ensures
        r is Ok <==> globs_compile(override_globs(cli.glob.deep_view(), cli.exclude.deep_view()))
            && type_compiles(cli.file_type),
        r matches Ok(made) ==> made.0.overrides.deep_view() == override_globs(
            cli.glob.deep_view(),
            cli.exclude.deep_view(),
        ) && made.0.file_type.deep_view() == cli.file_type.deep_view() && made.0.root@ == cli.path@
            && made.0.skip_hidden == !cli.hidden && made.0.use_ignore_files == !cli.no_ignore
            && made.0.use_vcs_ignore == (!cli.no_ignore && !cli.no_ignore_vcs) && compiles_to(
            made.0,
            made.1,
        ),
        r matches Err(e) ==> (e is InvalidGlob <==> !globs_compile(
            override_globs(cli.glob.deep_view(), cli.exclude.deep_view()),
        )),
{
    let scope = build_walker(cli);
    proof {
        assert(type_compiles(scope.file_type) <==> type_compiles(cli.file_type)) by {
            assert(scope.file_type.deep_view() == cli.file_type.deep_view());
        }
    }
    match compile_scope(&scope) {
        Ok(compiled) => Ok((scope, compiled)),
        Err(e) => Err(e),
    }
}

} // verus!
