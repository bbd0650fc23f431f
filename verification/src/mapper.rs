//! The slot that holds the frequency mapping: a compiled script, kept only
//! after it ran once without a fault, together with the hash of its text.
//!
//! Scripts are compiled by the `rhai` engine. What the compiler makes of a
//! text has a name, `compiled_of`, so the contracts can say which text became
//! the candidate and which complaint came back. A script is never run from
//! here: a script may loop without end, and nothing that can be said of a
//! compiled script rules that out. An installation is therefore cut in two.
//! `update` puts the candidate in place and hands out a `Staged` ticket; the
//! caller runs the candidate once, on the engine and the script that the
//! mapper lends, and `settle` takes the outcome: it commits the candidate, or
//! puts the previous mapping back.

use vstd::prelude::*;
use rhai::packages::Package;

verus! {

/// `rhai::Engine`, the script engine; carried, never looked into.
#[verifier::external_type_specification]
#[verifier::external_body]
pub struct ExEngine(rhai::Engine);

/// `rhai::AST`, a compiled script; carried, never looked into.
#[verifier::external_type_specification]
#[verifier::external_body]
pub struct ExAst(rhai::AST);

/// `rhai::Module`, a set of functions for scripts; carried, never looked into.
#[verifier::external_type_specification]
#[verifier::external_body]
pub struct ExModule(rhai::Module);

/// `rhai::ParseError`, the parser's complaint; only its text is taken.
#[verifier::external_type_specification]
#[verifier::external_body]
pub struct ExParseError(rhai::ParseError);

/// `rhai::Engine::new`: an engine with the standard packages. Nothing is claimed of it.
#[verifier::external_body]
fn new_engine() -> rhai::Engine {
    rhai::Engine::new()
}

/// `rhai_rand::RandomPackage::new` and `Package::as_shared_module`: the module
/// of random-number functions. Nothing is claimed of it.
#[verifier::external_body]
fn random_module() -> std::sync::Arc<rhai::Module> {
    rhai_rand::RandomPackage::new().as_shared_module()
}

/// `rhai::Engine::register_global_module`: makes the module's functions known
/// to scripts. Nothing is claimed of the engine afterwards.
#[verifier::external_body]
fn register_module(engine: &mut rhai::Engine, module: std::sync::Arc<rhai::Module>) {
    engine.register_global_module(module);
}

/// What `rhai::Engine::compile` makes of a text on a given engine: the
/// compiled script, or the parser's complaint. The compiler lexes, parses and
/// folds constants; it reads nothing but the engine and the text, so it
/// answers the same text on the same engine the same way.
pub uninterp spec fn compiled_of(engine: rhai::Engine, code: Seq<char>) -> Result<
    rhai::AST,
    rhai::ParseError,
>;

/// The text that a `rhai::ParseError` displays: the kind of the complaint and,
/// where it has one, the position in the script.
pub uninterp spec fn diagnostic_of(error: rhai::ParseError) -> Seq<char>;

/// `rhai::Engine::compile`: the compiled script, or the parser's complaint.
/// The answer is a function of the engine and the text, named `compiled_of`;
/// nothing is claimed of which texts compile.
#[verifier::external_body]
fn compile_script(engine: &rhai::Engine, code: &str) -> (result: Result<
    rhai::AST,
    rhai::ParseError,
>)
    ensures
        result == compiled_of(*engine, code@),
{
    engine.compile(code)
}

/// The text that `rhai::ParseError` displays, named `diagnostic_of`. Nothing
/// is claimed of what it says.
#[verifier::external_body]
fn parse_error_text(error: &rhai::ParseError) -> (text: String)
    ensures
        text@ == diagnostic_of(*error),
{
    format!("{error}")
}

/// `std::hash::RandomState::new`: a hasher with keys of its own.
#[verifier::external_body]
fn fresh_hasher() -> std::hash::RandomState {
    std::hash::RandomState::new()
}

/// `std::hash::BuildHasher::hash_one` on a text. The value depends on the
/// hasher's keys, so nothing is claimed of it.
#[verifier::external_body]
fn hash_text(hasher: &std::hash::RandomState, text: &str) -> u64 {
    std::hash::BuildHasher::hash_one(hasher, text)
}

/// Why a mapping was not installed.
#[derive(Debug, PartialEq, Eq)]
pub enum MappingError {
    /// The text is not a script; the diagnostic is the parser's.
    CompileError(String),
    /// The script compiled and then raised a fault when it was run.
    RuntimeError(String),
}

impl MappingError {
    /// The diagnostic that came with the error.
    pub fn message(&self) -> (text: &String)
        ensures
            self matches MappingError::CompileError(m) ==> *text == m,
            self matches MappingError::RuntimeError(m) ==> *text == m,
    {
        match self {
            MappingError::CompileError(m) => m,
            MappingError::RuntimeError(m) => m,
        }
    }
}

/// What a run of a script amounts to: a run without a fault is a success, and
/// a fault is a `RuntimeError` that carries the fault's text.
pub open spec fn run_outcome_of(outcome: Result<(), String>) -> Result<(), MappingError> {
    match outcome {
        Ok(_) => Ok(()),
        Err(text) => Err(MappingError::RuntimeError(text)),
    }
}

/// Turns the outcome of a run into the result that an installation, or a live
/// run, reports.
pub fn run_outcome(outcome: Result<(), String>) -> (result: Result<(), MappingError>)
    ensures
        result == run_outcome_of(outcome),
{
    match outcome {
        Ok(()) => Ok(()),
        Err(text) => Err(MappingError::RuntimeError(text)),
    }
}

/// The ticket of an installation that awaits its validation run: the
/// candidate is in place, and the ticket keeps what `settle` needs to commit
/// it or to undo it.
#[must_use]
pub struct Staged {
    previous: Option<rhai::AST>,
    text_hash: u64,
}

impl Staged {
    /// The mapping that the candidate took the place of.
    pub closed spec fn previous(&self) -> Option<rhai::AST> {
        self.previous
    }

    /// The hash of the candidate's text.
    pub closed spec fn text_hash(&self) -> u64 {
        self.text_hash
    }
}

/// What a mapper holds.
pub ghost struct MapperView {
    /// The engine that compiles the scripts and is lent out to run them.
    pub engine: rhai::Engine,
    /// The hasher that the texts are hashed with.
    pub hasher: std::hash::RandomState,
    /// The active mapping; `None` stands for the identity.
    pub mapping: Option<rhai::AST>,
    /// The hash of the text that was committed last.
    pub hash: u64,
    /// The hash of the empty text under this mapper's hasher.
    pub empty_hash: u64,
}

impl MapperView {
    /// The mapper with `candidate` put in place: nothing else changes, and the
    /// cached hash is not yet the candidate's.
    pub open spec fn staging(self, candidate: rhai::AST) -> MapperView {
        MapperView { mapping: Some(candidate), ..self }
    }

    /// The mapper after the validation run of a staged candidate came out as
    /// `outcome`: committed under the candidate's hash, or back at the mapping
    /// that was there before.
    pub open spec fn settled(self, staged: Staged, outcome: Result<(), String>) -> MapperView {
        match outcome {
            Ok(_) => MapperView { hash: staged.text_hash(), ..self },
            Err(_) => MapperView { mapping: staged.previous(), ..self },
        }
    }

    /// `staged` is the ticket for a candidate with the hash `text_hash` that
    /// was put in place of this mapper's mapping.
    pub open spec fn stages(self, staged: Staged, text_hash: u64) -> bool {
        staged.previous() == self.mapping && staged.text_hash() == text_hash
    }
}

pub struct Mapper {
    engine: rhai::Engine,
    hasher: std::hash::RandomState,
    empty_hash: u64,
    ast: Option<rhai::AST>,
    hash: u64,
}

impl View for Mapper {
    type V = MapperView;

    closed spec fn view(&self) -> MapperView {
        MapperView {
            engine: self.engine,
            hasher: self.hasher,
            mapping: self.ast,
            hash: self.hash,
            empty_hash: self.empty_hash,
        }
    }
}

impl Mapper {
    /// A mapper with no mapping, its hash that of the empty text.
    pub fn new() -> (mapper: Self)
        ensures
            mapper@.mapping is None,
            mapper@.hash == mapper@.empty_hash,
    {
        let mut engine = new_engine();
        register_module(&mut engine, random_module());
        let hasher = fresh_hasher();
        let empty_hash = hash_text(&hasher, "");
        Mapper { engine, hasher, empty_hash, ast: None, hash: empty_hash }
    }

    pub fn is_active(&self) -> (active: bool)
        ensures
            active == (self@.mapping is Some),
    {
        self.ast.is_some()
    }

    pub fn hash(&self) -> (hash: u64)
        ensures
            hash == self@.hash,
    {
        self.hash
    }

    /// The engine, lent out for a run of the script.
    pub fn engine(&self) -> (engine: &rhai::Engine)
        ensures
            *engine == self@.engine,
    {
        &self.engine
    }

    /// The script that is in place, lent out for a run; `None` where the
    /// mapping is the identity and there is nothing to run.
    pub fn script(&self) -> (script: Option<&rhai::AST>)
        ensures
            script is Some == self@.mapping is Some,
            script matches Some(ast) ==> Some(*ast) == self@.mapping,
    {
        self.ast.as_ref()
    }

    /// Falls back to the identity. The cached hash stays as it is.
    pub fn clear(&mut self)
        ensures
            final(self)@ == (MapperView { mapping: None, ..old(self)@ }),
    {
        self.ast = None;
    }

    /// Begins the installation of the mapping that `code` describes.
    ///
    /// The empty text clears the mapping and resets the cached hash to that of
    /// the empty text. Any other text is hashed; where the hash is the cached
    /// one nothing happens. Else the text is compiled. A text that does not
    /// compile is refused and the mapper is as it was before. A text that
    /// compiles is put in place as the candidate, and the ticket that comes
    /// back is to be handed to `settle` with the outcome of one run of the
    /// candidate on the neutral input.
    pub fn update(&mut self, code: &str) -> (result: Result<Option<Staged>, MappingError>)
        ensures
            code@.len() == 0 ==> result == Ok::<Option<Staged>, MappingError>(None) && final(self)@
                == (MapperView { mapping: None, hash: old(self)@.empty_hash, ..old(self)@ }),
            code@.len() > 0 && compiled_of(old(self)@.engine, code@) is Ok ==> result is Ok,
            code@.len() > 0 && result == Ok::<Option<Staged>, MappingError>(None) ==> final(self)@
                == old(self)@,
            result matches Err(e) ==> compiled_of(old(self)@.engine, code@) is Err
                && e is CompileError
                && e->CompileError_0@ == diagnostic_of(
                compiled_of(old(self)@.engine, code@)->Err_0,
            ) && final(self)@ == old(self)@,
            result matches Ok(Some(staged)) ==> code@.len() > 0
                && staged.text_hash() != old(self)@.hash
                && old(self)@.stages(staged, staged.text_hash())
                && compiled_of(old(self)@.engine, code@) is Ok
                && final(self)@ == old(self)@.staging(
                compiled_of(old(self)@.engine, code@)->Ok_0,
            ),
    {
        if code.is_empty() {
            self.ast = None;
            self.hash = self.empty_hash;
            return Ok(None);
        }
        let text_hash = hash_text(&self.hasher, code);
        self.install_hashed(code, text_hash)
    }

    /// Begins the installation of `code`, whose hash is `text_hash`, unless
    /// that is the cached hash. With another hash the compiler decides: its
    /// complaint comes back as a `CompileError` with the complaint's text, and
    /// its script is put in place as the candidate.
    pub fn install_hashed(
        &mut self,
        code: &str,
        text_hash: u64,
    ) -> (result: Result<Option<Staged>, MappingError>)
        ensures
            text_hash == old(self)@.hash ==> result == Ok::<Option<Staged>, MappingError>(None)
                && final(self)@ == old(self)@,
            text_hash != old(self)@.hash ==> result != Ok::<Option<Staged>, MappingError>(None),
            text_hash != old(self)@.hash ==> (result is Err) == (compiled_of(
                old(self)@.engine,
                code@,
            ) is Err),
            text_hash != old(self)@.hash && compiled_of(old(self)@.engine, code@) is Ok
                ==> final(self)@ == old(self)@.staging(
                compiled_of(old(self)@.engine, code@)->Ok_0,
            ),
            result matches Ok(Some(staged)) ==> old(self)@.stages(staged, text_hash),
            result matches Err(e) ==> e is CompileError
                && e->CompileError_0@ == diagnostic_of(
                compiled_of(old(self)@.engine, code@)->Err_0,
            ) && final(self)@ == old(self)@,
    {
        if text_hash == self.hash {
            return Ok(None);
        }
        let compiled = match compile_script(&self.engine, code) {
            Ok(ast) => Ok(ast),
            Err(error) => Err(parse_error_text(&error)),
        };
        match self.install_compiled(text_hash, compiled) {
            Ok(staged) => Ok(Some(staged)),
            Err(error) => Err(error),
        }
    }

    /// Takes the compiler's answer: refuses on its complaint, else puts the
    /// script in place as the candidate and hands out the ticket for it.
    pub fn install_compiled(
        &mut self,
        text_hash: u64,
        compiled: Result<rhai::AST, String>,
    ) -> (result: Result<Staged, MappingError>)
        ensures
            compiled matches Err(diagnostic) ==> result == Err::<Staged, MappingError>(
                MappingError::CompileError(diagnostic),
            ) && final(self)@ == old(self)@,
            compiled matches Ok(candidate) ==> result is Ok && old(self)@.stages(
                result->Ok_0,
                text_hash,
            ) && final(self)@ == old(self)@.staging(candidate),
    {
        match compiled {
            Err(diagnostic) => Err(MappingError::CompileError(diagnostic)),
            Ok(candidate) => {
                let mut previous = Some(candidate);
                core::mem::swap(&mut self.ast, &mut previous);
                Ok(Staged { previous, text_hash })
            },
        }
    }

    /// Ends an installation: `outcome` is that of the candidate's validation
    /// run. After a run without a fault the candidate stays and its hash is
    /// committed. After a fault the mapping that was there before is put back,
    /// the cached hash stays, and the fault comes back as a `RuntimeError`.
    pub fn settle(
        &mut self,
        staged: Staged,
        outcome: Result<(), String>,
    ) -> (result: Result<(), MappingError>)
        ensures
            final(self)@ == old(self)@.settled(staged, outcome),
            result == run_outcome_of(outcome),
    {
        match outcome {
            Ok(()) => {
                self.hash = staged.text_hash;
                Ok(())
            },
            Err(text) => {
                self.ast = staged.previous;
                Err(MappingError::RuntimeError(text))
            },
        }
    }
}

/// A candidate whose validation run raises a fault leaves no trace: the
/// mapper is exactly as it was before the installation began, mapping and
/// cached hash included, and the fault comes back as a `RuntimeError` with its
/// text.
pub proof fn lemma_fault_rolls_back(
    before: MapperView,
    candidate: rhai::AST,
    staged: Staged,
    text_hash: u64,
    diagnostic: String,
)
    requires
        before.stages(staged, text_hash),
    ensures
        before.staging(candidate).settled(staged, Err(diagnostic)) == before,
        run_outcome_of(Err(diagnostic)) == Err::<(), MappingError>(
            MappingError::RuntimeError(diagnostic),
        ),
{
}

/// A candidate whose validation run raises no fault is the mapping from then
/// on, under the hash of its text; nothing else changes.
pub proof fn lemma_clean_run_commits(
    before: MapperView,
    candidate: rhai::AST,
    staged: Staged,
    text_hash: u64,
)
    requires
        before.stages(staged, text_hash),
    ensures
        before.staging(candidate).settled(staged, Ok(())) == (MapperView {
            mapping: Some(candidate),
            hash: text_hash,
            ..before
        }),
        run_outcome_of(Ok(())) == Ok::<(), MappingError>(()),
{
}

} // verus!
