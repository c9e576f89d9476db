//! Bounded named Git identities and the worktrees they are assigned to:
//! what a saved store must satisfy, which profile a worktree uses, and how
//! a save, a deletion or an assignment changes the store. Reading and
//! writing the file stays with the caller.

use vstd::prelude::*;
use crate::paths::{is_absolute, path_is_absolute, paths_equal, same_path};
use crate::project_library::copy_bytes;
use crate::text::{char_is_control, chars_of, is_control, lowercase, to_lowercase, trim, trimmed, utf8_len};

verus! {

pub const MAX_DEFINITIONS: usize = 64;

pub const MAX_ASSIGNMENTS: usize = 512;

/// The longest profile identifier or name, in bytes.
pub const MAX_PROFILE_TEXT_BYTES: usize = 80;

#[derive(Debug, PartialEq, Eq)]
pub struct Signing {
    pub key: Option<String>,
    pub format: Option<String>,
    pub commits: bool,
    pub tags: bool,
    pub annotated_tags: bool,
}

/// A named Git identity.
#[derive(Debug, PartialEq, Eq)]
pub struct Definition {
    pub id: String,
    pub label: String,
    pub name: String,
    pub email: String,
    pub signing: Option<Signing>,
}

/// A worktree and the identifier of the profile it uses.
#[derive(Debug, PartialEq, Eq)]
pub struct Assignment {
    pub worktree: Vec<u8>,
    pub profile: String,
}

#[derive(Debug, PartialEq, Eq)]
pub struct Store {
    pub version: u8,
    pub definitions: Vec<Definition>,
    pub assignments: Vec<Assignment>,
}

/// A change the user asked for, checked against the store as it is now.
pub enum Mutation {
    /// Save `definition`; `previous` is what the editor started from.
    Save { previous: Option<Definition>, definition: Definition },
    Delete(Definition),
    Assign { worktree: Vec<u8>, profile: Definition },
}

pub struct SigningModel {
    pub key: Option<Seq<char>>,
    pub format: Option<Seq<char>>,
    pub commits: bool,
    pub tags: bool,
    pub annotated_tags: bool,
}

pub struct DefinitionModel {
    pub id: Seq<char>,
    pub label: Seq<char>,
    pub name: Seq<char>,
    pub email: Seq<char>,
    pub signing: Option<SigningModel>,
}

pub struct AssignmentModel {
    pub worktree: Seq<u8>,
    pub profile: Seq<char>,
}

pub struct StoreModel {
    pub version: u8,
    pub definitions: Seq<DefinitionModel>,
    pub assignments: Seq<AssignmentModel>,
}

pub open spec fn text_view(t: Option<String>) -> Option<Seq<char>> {
    match t {
        Some(s) => Some(s@),
        None => None,
    }
}

impl View for Signing {
    type V = SigningModel;

    open spec fn view(&self) -> SigningModel {
        SigningModel {
            key: text_view(self.key),
            format: text_view(self.format),
            commits: self.commits,
            tags: self.tags,
            annotated_tags: self.annotated_tags,
        }
    }
}

impl View for Definition {
    type V = DefinitionModel;

    open spec fn view(&self) -> DefinitionModel {
        DefinitionModel {
            id: self.id@,
            label: self.label@,
            name: self.name@,
            email: self.email@,
            signing: match self.signing {
                Some(s) => Some(s@),
                None => None,
            },
        }
    }
}

impl View for Assignment {
    type V = AssignmentModel;

    open spec fn view(&self) -> AssignmentModel {
        AssignmentModel { worktree: self.worktree@, profile: self.profile@ }
    }
}

pub open spec fn definition_views(d: Seq<Definition>) -> Seq<DefinitionModel> {
    d.map_values(|x: Definition| x@)
}

pub open spec fn assignment_views(a: Seq<Assignment>) -> Seq<AssignmentModel> {
    a.map_values(|x: Assignment| x@)
}

impl View for Store {
    type V = StoreModel;

    open spec fn view(&self) -> StoreModel {
        StoreModel {
            version: self.version,
            definitions: definition_views(self.definitions@),
            assignments: assignment_views(self.assignments@),
        }
    }
}

pub open spec fn identifier_message() -> Seq<char> {
    "Invalid profile identifier"@
}

pub open spec fn label_message() -> Seq<char> {
    "Choose a profile name of 1\u{2013}80 bytes without control characters"@
}

pub open spec fn version_message() -> Seq<char> {
    "Saved profiles use an unsupported version; the file was preserved"@
}

pub open spec fn bounds_message() -> Seq<char> {
    "Profiles support up to 64 definitions and 512 assignments"@
}

pub open spec fn unique_message() -> Seq<char> {
    "Profile names and identifiers must be unique"@
}

pub open spec fn assignment_message() -> Seq<char> {
    "Invalid saved profile assignment"@
}

pub open spec fn stale_save_message() -> Seq<char> {
    "This profile changed elsewhere. Reopen its editor before saving."@
}

pub open spec fn stale_delete_message() -> Seq<char> {
    "This profile changed elsewhere. Review deletion again."@
}

pub open spec fn stale_assign_message() -> Seq<char> {
    "Git configuration was applied, but the saved profile changed. Reopen the picker to review the assignment."@
}

/// A byte of an identifier: an ASCII letter or digit, or `-`.
pub open spec fn identifier_byte(b: u8) -> bool {
    (48 <= b <= 57) || (65 <= b <= 90) || (97 <= b <= 122) || b == 45
}

/// An identifier is 1 to 80 bytes of ASCII letters, digits and `-`.
pub open spec fn valid_identifier(id: Seq<char>) -> bool {
    let bytes = vstd::utf8::encode_utf8(id);
    0 < bytes.len() <= MAX_PROFILE_TEXT_BYTES && forall|i: int|
        0 <= i < bytes.len() ==> identifier_byte(#[trigger] bytes[i])
}

/// A profile name is not blank, at most 80 bytes, and without control
/// characters.
pub open spec fn valid_label(label: Seq<char>) -> bool {
    &&& trim(label).len() > 0
    &&& utf8_len(label) <= MAX_PROFILE_TEXT_BYTES
    &&& forall|i: int| 0 <= i < label.len() ==> !is_control(#[trigger] label[i])
}

/// Why a definition cannot be saved, or `None`.
pub open spec fn definition_problem(d: DefinitionModel) -> Option<Seq<char>> {
    if !valid_identifier(d.id) {
        Some(identifier_message())
    } else if !valid_label(d.label) {
        Some(label_message())
    } else {
        None
    }
}

/// Whether `d` shares an identifier, or a name ignoring case, with one of
/// `earlier`.
pub open spec fn clashes(earlier: Seq<DefinitionModel>, d: DefinitionModel) -> bool {
    exists|j: int|
        0 <= j < earlier.len() && ((#[trigger] earlier[j]).id == d.id || lowercase(earlier[j].label)
            == lowercase(d.label))
}

/// The first problem among the definitions, in order.
pub open spec fn definitions_problem(defs: Seq<DefinitionModel>) -> Option<Seq<char>>
    decreases defs.len(),
{
    if defs.len() == 0 {
        None
    } else {
        match definitions_problem(defs.drop_last()) {
            Some(p) => Some(p),
            None => match definition_problem(defs.last()) {
                Some(p) => Some(p),
                None => if clashes(defs.drop_last(), defs.last()) {
                    Some(unique_message())
                } else {
                    None
                },
            },
        }
    }
}

/// Whether some definition has the identifier `id`.
pub open spec fn has_identifier(defs: Seq<DefinitionModel>, id: Seq<char>) -> bool {
    exists|j: int| 0 <= j < defs.len() && (#[trigger] defs[j]).id == id
}

/// An assignment names an absolute worktree and a saved profile.
pub open spec fn assignment_valid(defs: Seq<DefinitionModel>, a: AssignmentModel) -> bool {
    is_absolute(a.worktree) && has_identifier(defs, a.profile)
}

/// Why a store cannot be kept, or `None` when it can.
pub open spec fn store_problem(s: StoreModel) -> Option<Seq<char>> {
    if s.version != 1 {
        Some(version_message())
    } else if s.definitions.len() > MAX_DEFINITIONS || s.assignments.len() > MAX_ASSIGNMENTS {
        Some(bounds_message())
    } else if definitions_problem(s.definitions) is Some {
        definitions_problem(s.definitions)
    } else if exists|i: int|
        0 <= i < s.assignments.len() && !assignment_valid(
            s.definitions,
            #[trigger] s.assignments[i],
        ) {
        Some(assignment_message())
    } else {
        None
    }
}

/// The first position whose entry satisfies `pred`.
pub open spec fn first_where<A>(s: Seq<A>, pred: spec_fn(A) -> bool) -> Option<int>
    decreases s.len(),
{
    if s.len() == 0 {
        None
    } else {
        match first_where(s.drop_last(), pred) {
            Some(i) => Some(i),
            None => if pred(s.last()) {
                Some(s.len() - 1)
            } else {
                None
            },
        }
    }
}

pub proof fn lemma_first_where<A>(s: Seq<A>, pred: spec_fn(A) -> bool)
    ensures
        first_where(s, pred) is None <==> forall|i: int| 0 <= i < s.len() ==> !pred(#[trigger] s[i]),
        first_where(s, pred) matches Some(i) ==> 0 <= i < s.len() && pred(s[i]) && forall|j: int|
            0 <= j < i ==> !pred(#[trigger] s[j]),
    decreases s.len(),
{
    if s.len() > 0 {
        let prefix = s.drop_last();
        lemma_first_where(prefix, pred);
        match first_where(prefix, pred) {
            Some(i) => {
                assert(prefix[i] == s[i]);
                assert forall|j: int| 0 <= j < i implies !pred(#[trigger] s[j]) by {
                    assert(prefix[j] == s[j]);
                }
            },
            None => {
                assert forall|j: int| 0 <= j < prefix.len() implies !pred(#[trigger] s[j]) by {
                    assert(prefix[j] == s[j]);
                }
            },
        }
    }
}

pub open spec fn at_worktree(worktree: Seq<u8>) -> spec_fn(AssignmentModel) -> bool {
    |a: AssignmentModel| same_path(a.worktree, worktree)
}

pub open spec fn with_identifier(id: Seq<char>) -> spec_fn(DefinitionModel) -> bool {
    |d: DefinitionModel| d.id == id
}

/// The profile a worktree uses: the first assignment of the worktree, and
/// the first definition it names.
pub open spec fn assigned_profile(s: StoreModel, worktree: Seq<u8>) -> Option<DefinitionModel> {
    match first_where(s.assignments, at_worktree(worktree)) {
        Some(i) => match first_where(s.definitions, with_identifier(s.assignments[i].profile)) {
            Some(j) => Some(s.definitions[j]),
            None => None,
        },
        None => None,
    }
}

/// The store a mutation asks for before it is checked as a whole, or why it
/// was refused: a stale save or deletion, an invalid definition, or an
/// assignment to a relative path or a profile no longer saved.
pub open spec fn mutated(s: StoreModel, m: MutationModel) -> Result<StoreModel, Seq<char>> {
    match m {
        MutationModel::Save { previous, definition } => {
            if definition_problem(definition) is Some {
                Err(definition_problem(definition)->0)
            } else {
                match first_where(s.definitions, with_identifier(definition.id)) {
                    Some(i) => if previous == Some(s.definitions[i]) {
                        Ok(StoreModel { definitions: s.definitions.update(i, definition), ..s })
                    } else {
                        Err(stale_save_message())
                    },
                    None => if previous is None {
                        Ok(StoreModel { definitions: s.definitions.push(definition), ..s })
                    } else {
                        Err(stale_save_message())
                    },
                }
            }
        },
        MutationModel::Delete(expected) => {
            if exists|j: int| 0 <= j < s.definitions.len() && #[trigger] s.definitions[j] == expected {
                Ok(
                    StoreModel {
                        definitions: s.definitions.filter(other_than(expected.id)),
                        assignments: s.assignments.filter(not_using(expected.id)),
                        ..s
                    },
                )
            } else {
                Err(stale_delete_message())
            }
        },
        MutationModel::Assign { worktree, profile } => {
            if is_absolute(worktree) && exists|j: int|
                0 <= j < s.definitions.len() && #[trigger] s.definitions[j] == profile {
                Ok(
                    StoreModel {
                        assignments: s.assignments.filter(elsewhere(worktree)).push(
                            AssignmentModel { worktree: worktree, profile: profile.id },
                        ),
                        ..s
                    },
                )
            } else {
                Err(stale_assign_message())
            }
        },
    }
}

/// The store after a mutation, checked as a whole, or why it was refused.
pub open spec fn updated(s: StoreModel, m: MutationModel) -> Result<StoreModel, Seq<char>> {
    match mutated(s, m) {
        Ok(next) => match store_problem(next) {
            Some(p) => Err(p),
            None => Ok(next),
        },
        Err(e) => Err(e),
    }
}

/// What checking Git identities answered, each answer beside the
/// definition it was asked for: `None` when the identity passed, or why it
/// was refused.
pub open spec fn answers_view(answers: Seq<(Definition, Result<(), String>)>) -> Seq<
    (DefinitionModel, Option<Seq<char>>),
> {
    answers.map_values(
        |a: (Definition, Result<(), String>)|
            (
                a.0@,
                match a.1 {
                    Ok(_) => None,
                    Err(m) => Some(m@),
                },
            ),
    )
}

/// Why the identity of `d` was refused: the first answer given for `d`. A
/// definition with no answer counts as passing.
pub open spec fn identity_problem(answers: Seq<(DefinitionModel, Option<Seq<char>>)>, d: DefinitionModel) -> Option<
    Seq<char>,
>
    decreases answers.len(),
{
    if answers.len() == 0 {
        None
    } else if answers[0].0 == d {
        answers[0].1
    } else {
        identity_problem(answers.drop_first(), d)
    }
}

/// Why a definition cannot be saved: its identifier and name first, then
/// its Git identity.
pub open spec fn definition_problem_with(
    d: DefinitionModel,
    answers: Seq<(DefinitionModel, Option<Seq<char>>)>,
) -> Option<Seq<char>> {
    if definition_problem(d) is Some {
        definition_problem(d)
    } else {
        identity_problem(answers, d)
    }
}

/// The first problem among saved definitions, in order, identities
/// included.
pub open spec fn definitions_problem_with(
    defs: Seq<DefinitionModel>,
    answers: Seq<(DefinitionModel, Option<Seq<char>>)>,
) -> Option<Seq<char>>
    decreases defs.len(),
{
    if defs.len() == 0 {
        None
    } else {
        match definitions_problem_with(defs.drop_last(), answers) {
            Some(p) => Some(p),
            None => match definition_problem_with(defs.last(), answers) {
                Some(p) => Some(p),
                None => if clashes(defs.drop_last(), defs.last()) {
                    Some(unique_message())
                } else {
                    None
                },
            },
        }
    }
}

/// Why a store cannot be kept, identities included, or `None`.
pub open spec fn store_problem_with(s: StoreModel, answers: Seq<(DefinitionModel, Option<Seq<char>>)>) -> Option<
    Seq<char>,
> {
    if s.version != 1 {
        Some(version_message())
    } else if s.definitions.len() > MAX_DEFINITIONS || s.assignments.len() > MAX_ASSIGNMENTS {
        Some(bounds_message())
    } else if definitions_problem_with(s.definitions, answers) is Some {
        definitions_problem_with(s.definitions, answers)
    } else if exists|i: int|
        0 <= i < s.assignments.len() && !assignment_valid(
            s.definitions,
            #[trigger] s.assignments[i],
        ) {
        Some(assignment_message())
    } else {
        None
    }
}

/// The store after a mutation, identities included: a saved definition is
/// checked, its identity too, before anything else.
pub open spec fn updated_with(
    s: StoreModel,
    m: MutationModel,
    answers: Seq<(DefinitionModel, Option<Seq<char>>)>,
) -> Result<StoreModel, Seq<char>> {
    let checked = match m {
        MutationModel::Save { definition, .. } => definition_problem_with(definition, answers),
        _ => None,
    };
    match checked {
        Some(p) => Err(p),
        None => match mutated(s, m) {
            Ok(next) => match store_problem_with(next, answers) {
                Some(p) => Err(p),
                None => Ok(next),
            },
            Err(e) => Err(e),
        },
    }
}

proof fn lemma_no_answers(defs: Seq<DefinitionModel>)
    ensures
        definitions_problem_with(defs, seq![]) == definitions_problem(defs),
    decreases defs.len(),
{
    if defs.len() > 0 {
        lemma_no_answers(defs.drop_last());
    }
}

/// Without answers about identities, the checks are those of the
/// identifier, the name and the store.
proof fn lemma_no_answers_store(s: StoreModel, m: MutationModel)
    ensures
        store_problem_with(s, seq![]) == store_problem(s),
        updated_with(s, m, seq![]) == updated(s, m),
{
    lemma_no_answers(s.definitions);
    match mutated(s, m) {
        Ok(next) => lemma_no_answers(next.definitions),
        Err(_) => {},
    }
}

pub enum MutationModel {
    Save { previous: Option<DefinitionModel>, definition: DefinitionModel },
    Delete(DefinitionModel),
    Assign { worktree: Seq<u8>, profile: DefinitionModel },
}

impl View for Mutation {
    type V = MutationModel;

    open spec fn view(&self) -> MutationModel {
        match self {
            Mutation::Save { previous, definition } => MutationModel::Save {
                previous: match previous {
                    Some(p) => Some(p@),
                    None => None,
                },
                definition: definition@,
            },
            Mutation::Delete(d) => MutationModel::Delete(d@),
            Mutation::Assign { worktree, profile } => MutationModel::Assign {
                worktree: worktree@,
                profile: profile@,
            },
        }
    }
}

fn copy_text(t: &Option<String>) -> (r: Option<String>)
    ensures
        text_view(r) == text_view(*t),
{
    match t {
        Some(s) => Some(s.clone()),
        None => None,
    }
}

impl Clone for Signing {
    fn clone(&self) -> (r: Self)
        ensures
            r@ == self@,
    {
        Signing {
            key: copy_text(&self.key),
            format: copy_text(&self.format),
            commits: self.commits,
            tags: self.tags,
            annotated_tags: self.annotated_tags,
        }
    }
}

impl Clone for Definition {
    fn clone(&self) -> (r: Self)
        ensures
            r@ == self@,
    {
        Definition {
            id: self.id.clone(),
            label: self.label.clone(),
            name: self.name.clone(),
            email: self.email.clone(),
            signing: match &self.signing {
                Some(s) => Some(s.clone()),
                None => None,
            },
        }
    }
}

impl Clone for Assignment {
    fn clone(&self) -> (r: Self)
        ensures
            r@ == self@,
    {
        Assignment { worktree: copy_bytes(self.worktree.as_slice()), profile: self.profile.clone() }
    }
}

fn copy_definitions(d: &Vec<Definition>) -> (r: Vec<Definition>)
    ensures
        definition_views(r@) == definition_views(d@),
{
    let mut r: Vec<Definition> = Vec::new();
    let mut i: usize = 0;
    while i < d.len()
        invariant
            i <= d@.len(),
            definition_views(r@) == definition_views(d@.take(i as int)),
        decreases d@.len() - i,
    {
        let copy = d[i].clone();
        let ghost before = r@;
        r.push(copy);
        proof {
            assert(copy@ == d@[i as int]@);
            assert(r@ == before.push(copy));
            assert(definition_views(r@) =~= definition_views(before).push(copy@));
            assert(definition_views(d@.take(i + 1)) =~= definition_views(d@.take(i as int)).push(
                d@[i as int]@,
            ));
        }
        i = i + 1;
    }
    proof {
        assert(d@.take(d@.len() as int) =~= d@);
    }
    r
}

fn copy_assignments(a: &Vec<Assignment>) -> (r: Vec<Assignment>)
    ensures
        assignment_views(r@) == assignment_views(a@),
{
    let mut r: Vec<Assignment> = Vec::new();
    let mut i: usize = 0;
    while i < a.len()
        invariant
            i <= a@.len(),
            assignment_views(r@) == assignment_views(a@.take(i as int)),
        decreases a@.len() - i,
    {
        let copy = a[i].clone();
        let ghost before = r@;
        r.push(copy);
        proof {
            assert(copy@ == a@[i as int]@);
            assert(r@ == before.push(copy));
            assert(assignment_views(r@) =~= assignment_views(before).push(copy@));
            assert(assignment_views(a@.take(i + 1)) =~= assignment_views(a@.take(i as int)).push(
                a@[i as int]@,
            ));
        }
        i = i + 1;
    }
    proof {
        assert(a@.take(a@.len() as int) =~= a@);
    }
    r
}

impl Clone for Store {
    fn clone(&self) -> (r: Self)
        ensures
            r@ == self@,
    {
        Store {
            version: self.version,
            definitions: copy_definitions(&self.definitions),
            assignments: copy_assignments(&self.assignments),
        }
    }
}

fn same_text(a: &Option<String>, b: &Option<String>) -> (r: bool)
    ensures
        r == (text_view(*a) == text_view(*b)),
{
    match (a, b) {
        (Some(x), Some(y)) => *x == *y,
        (None, None) => true,
        _ => false,
    }
}

fn same_signing(a: &Option<Signing>, b: &Option<Signing>) -> (r: bool)
    ensures
        r == ((match *a {
            Some(s) => Some(s@),
            None => None,
        }) == (match *b {
            Some(s) => Some(s@),
            None => None,
        })),
{
    match (a, b) {
        (Some(x), Some(y)) => same_text(&x.key, &y.key) && same_text(&x.format, &y.format)
            && x.commits == y.commits && x.tags == y.tags && x.annotated_tags == y.annotated_tags,
        (None, None) => true,
        _ => false,
    }
}

/// Whether two definitions are the same in every field.
fn same_definition(a: &Definition, b: &Definition) -> (r: bool)
    ensures
        r == (a@ == b@),
{
    a.id == b.id && a.label == b.label && a.name == b.name && a.email == b.email && same_signing(
        &a.signing,
        &b.signing,
    )
}

fn valid_identifier_bytes(id: &str) -> (r: bool)
    ensures
        r == valid_identifier(id@),
{
    let bytes = id.as_bytes();
    if bytes.len() == 0 || bytes.len() > MAX_PROFILE_TEXT_BYTES {
        return false;
    }
    let mut i: usize = 0;
    while i < bytes.len()
        invariant
            i <= bytes@.len(),
            bytes@ == vstd::utf8::encode_utf8(id@),
            forall|k: int| 0 <= k < i ==> identifier_byte(#[trigger] bytes@[k]),
        decreases bytes@.len() - i,
    {
        let b = bytes[i];
        if !((48 <= b && b <= 57) || (65 <= b && b <= 90) || (97 <= b && b <= 122) || b == 45) {
            return false;
        }
        i = i + 1;
    }
    true
}

fn has_control(s: &str) -> (r: bool)
    ensures
        r == exists|i: int| 0 <= i < s@.len() && is_control(#[trigger] s@[i]),
{
    let chars = chars_of(s);
    let mut i: usize = 0;
    while i < chars.len()
        invariant
            i <= chars@.len(),
            chars@ == s@,
            forall|k: int| 0 <= k < i ==> !is_control(#[trigger] s@[k]),
        decreases chars@.len() - i,
    {
        if char_is_control(chars[i]) {
            return true;
        }
        i = i + 1;
    }
    false
}

impl Definition {
    /// Whether the identifier and the name can be saved.
    pub fn validate(&self) -> (r: Result<(), String>)
        ensures
            match definition_problem(self@) {
                Some(p) => r matches Err(e) && e@ == p,
                None => r is Ok,
            },
    {
        if !valid_identifier_bytes(self.id.as_str()) {
            return Err("Invalid profile identifier".to_owned());
        }
        let blank = trimmed(self.label.as_str()).as_str().is_empty();
        if blank || self.label.as_str().as_bytes().len() > MAX_PROFILE_TEXT_BYTES || has_control(
            self.label.as_str(),
        ) {
            return Err("Choose a profile name of 1\u{2013}80 bytes without control characters".to_owned());
        }
        Ok(())
    }

    /// Whether the definition can be saved, given what checking its Git
    /// identity (name, email and signing) answered: the identifier and the
    /// name are checked first, then the identity's answer stands.
    pub fn validate_with_identity(&self, identity: Result<(), String>) -> (r: Result<(), String>)
        ensures
            match definition_problem(self@) {
                Some(p) => r matches Err(e) && e@ == p,
                None => r == identity,
            },
    {
        match self.validate() {
            Err(message) => Err(message),
            Ok(()) => identity,
        }
    }
}

fn clashes_with_earlier(defs: &Vec<Definition>, i: usize) -> (r: bool)
    requires
        i < defs@.len(),
    ensures
        r == clashes(definition_views(defs@).take(i as int), defs@[i as int]@),
{
    let ghost earlier = definition_views(defs@).take(i as int);
    let lowered = to_lowercase(defs[i].label.as_str());
    let mut j: usize = 0;
    while j < i
        invariant
            j <= i < defs@.len(),
            earlier == definition_views(defs@).take(i as int),
            lowered@ == lowercase(defs@[i as int].label@),
            forall|k: int|
                0 <= k < j ==> !((#[trigger] earlier[k]).id == defs@[i as int]@.id || lowercase(
                    earlier[k].label,
                ) == lowercase(defs@[i as int]@.label)),
        decreases i - j,
    {
        proof {
            assert(earlier[j as int] == defs@[j as int]@);
        }
        if defs[j].id == defs[i].id {
            return true;
        }
        let other = to_lowercase(defs[j].label.as_str());
        if other == lowered {
            return true;
        }
        j = j + 1;
    }
    false
}

fn holds_identifier(defs: &Vec<Definition>, id: &String) -> (r: bool)
    ensures
        r == has_identifier(definition_views(defs@), id@),
{
    let mut j: usize = 0;
    while j < defs.len()
        invariant
            j <= defs@.len(),
            forall|k: int| 0 <= k < j ==> (#[trigger] definition_views(defs@)[k]).id != id@,
        decreases defs@.len() - j,
    {
        proof {
            assert(definition_views(defs@)[j as int] == defs@[j as int]@);
        }
        if defs[j].id == *id {
            return true;
        }
        j = j + 1;
    }
    false
}

impl Store {
    /// Whether the store can be kept: its version, its bounds, each
    /// definition and its uniqueness, and each assignment.
    pub fn validate(&self) -> (r: Result<(), String>)
        ensures
            match store_problem(self@) {
                Some(p) => r matches Err(e) && e@ == p,
                None => r is Ok,
            },
    {
        let none: Vec<(Definition, Result<(), String>)> = Vec::new();
        proof {
            assert(answers_view(none@) =~= seq![]);
            lemma_no_answers(self@.definitions);
        }
        self.validate_with_identities(&none)
    }

    /// Whether the store can be kept, given what checking the Git identity
    /// of each definition answered: its version, its bounds, each
    /// definition with its identity and its uniqueness, and each assignment.
    pub fn validate_with_identities(&self, answers: &Vec<(Definition, Result<(), String>)>) -> (r: Result<(), String>)
        ensures
            match store_problem_with(self@, answers_view(answers@)) {
                Some(p) => r matches Err(e) && e@ == p,
                None => r is Ok,
            },
    {
        let ghost table = answers_view(answers@);
        if self.version != 1 {
            return Err("Saved profiles use an unsupported version; the file was preserved".to_owned());
        }
        if self.definitions.len() > MAX_DEFINITIONS || self.assignments.len() > MAX_ASSIGNMENTS {
            return Err("Profiles support up to 64 definitions and 512 assignments".to_owned());
        }
        let ghost defs = definition_views(self.definitions@);
        let mut i: usize = 0;
        proof {
            assert(defs.take(0) =~= Seq::<DefinitionModel>::empty());
        }
        while i < self.definitions.len()
            invariant
                i <= self.definitions@.len(),
                self.version == 1,
                self.definitions@.len() <= MAX_DEFINITIONS,
                self.assignments@.len() <= MAX_ASSIGNMENTS,
                defs == definition_views(self.definitions@),
                table == answers_view(answers@),
                definitions_problem_with(defs.take(i as int), table) is None,
            decreases self.definitions@.len() - i,
        {
            let ghost grown = defs.take(i + 1);
            proof {
                assert(grown.drop_last() =~= defs.take(i as int));
                assert(grown.last() == self.definitions@[i as int]@);
            }
            match self.definitions[i].validate() {
                Ok(()) => {},
                Err(e) => {
                    proof {
                        lemma_problem_with_prefix(defs, i + 1, table);
                    }
                    return Err(e);
                },
            }
            match identity_answer(answers, &self.definitions[i]) {
                Ok(()) => {},
                Err(e) => {
                    proof {
                        lemma_problem_with_prefix(defs, i + 1, table);
                    }
                    return Err(e);
                },
            }
            if clashes_with_earlier(&self.definitions, i) {
                proof {
                    lemma_problem_with_prefix(defs, i + 1, table);
                }
                return Err("Profile names and identifiers must be unique".to_owned());
            }
            i = i + 1;
        }
        proof {
            assert(defs.take(defs.len() as int) =~= defs);
        }
        let ghost assignments = assignment_views(self.assignments@);
        let mut k: usize = 0;
        while k < self.assignments.len()
            invariant
                k <= self.assignments@.len(),
                self.version == 1,
                self.definitions@.len() <= MAX_DEFINITIONS,
                self.assignments@.len() <= MAX_ASSIGNMENTS,
                definitions_problem_with(defs, table) is None,
                table == answers_view(answers@),
                defs == definition_views(self.definitions@),
                assignments == assignment_views(self.assignments@),
                forall|m: int| 0 <= m < k ==> assignment_valid(defs, #[trigger] assignments[m]),
            decreases self.assignments@.len() - k,
        {
            proof {
                assert(assignments[k as int] == self.assignments@[k as int]@);
            }
            let a = &self.assignments[k];
            if !path_is_absolute(a.worktree.as_slice()) || !holds_identifier(
                &self.definitions,
                &a.profile,
            ) {
                return Err("Invalid saved profile assignment".to_owned());
            }
            k = k + 1;
        }
        Ok(())
    }

    /// The profile a worktree uses, when it has one.
    pub fn assigned(&self, worktree: &[u8]) -> (r: Option<&Definition>)
        ensures
            match assigned_profile(self@, worktree@) {
                Some(d) => r matches Some(found) && found@ == d,
                None => r is None,
            },
    {
        let ghost asg = assignment_views(self.assignments@);
        let ghost defs = definition_views(self.definitions@);
        proof {
            lemma_first_where(asg, at_worktree(worktree@));
        }
        let mut i: usize = 0;
        while i < self.assignments.len()
            invariant
                i <= self.assignments@.len(),
                asg == assignment_views(self.assignments@),
                defs == definition_views(self.definitions@),
                forall|m: int| 0 <= m < i ==> !at_worktree(worktree@)(#[trigger] asg[m]),
            decreases self.assignments@.len() - i,
        {
            proof {
                assert(asg[i as int] == self.assignments@[i as int]@);
            }
            if paths_equal(self.assignments[i].worktree.as_slice(), worktree) {
                proof {
                    lemma_first_where_at(asg, at_worktree(worktree@), i as int);
                    lemma_first_where(defs, with_identifier(asg[i as int].profile));
                }
                let id = &self.assignments[i].profile;
                let mut j: usize = 0;
                while j < self.definitions.len()
                    invariant
                        j <= self.definitions@.len(),
                        defs == definition_views(self.definitions@),
                        asg == assignment_views(self.assignments@),
                        i < asg.len(),
                        id@ == asg[i as int].profile,
                        first_where(asg, at_worktree(worktree@)) == Some(i as int),
                        forall|m: int| 0 <= m < j ==> !with_identifier(id@)(#[trigger] defs[m]),
                    decreases self.definitions@.len() - j,
                {
                    proof {
                        assert(defs[j as int] == self.definitions@[j as int]@);
                    }
                    if self.definitions[j].id == *id {
                        proof {
                            lemma_first_where_at(defs, with_identifier(id@), j as int);
                        }
                        return Some(&self.definitions[j]);
                    }
                    j = j + 1;
                }
                proof {
                    lemma_first_where(defs, with_identifier(id@));
                }
                return None;
            }
            i = i + 1;
        }
        None
    }
}

/// Once a prefix of the definitions has a problem, the first problem of all
/// of them is that one.
proof fn lemma_problem_with_prefix(
    defs: Seq<DefinitionModel>,
    k: int,
    answers: Seq<(DefinitionModel, Option<Seq<char>>)>,
)
    requires
        0 <= k <= defs.len(),
        definitions_problem_with(defs.take(k), answers) is Some,
    ensures
        definitions_problem_with(defs, answers) == definitions_problem_with(defs.take(k), answers),
    decreases defs.len() - k,
{
    if k < defs.len() {
        assert(defs.take(k + 1).drop_last() =~= defs.take(k));
        lemma_problem_with_prefix(defs, k + 1, answers);
    } else {
        assert(defs.take(k) =~= defs);
    }
}

/// What checking the identity of `d` answered: the first answer given for
/// it, or a pass when none was.
fn identity_answer(answers: &Vec<(Definition, Result<(), String>)>, d: &Definition) -> (r: Result<(), String>)
    ensures
        match identity_problem(answers_view(answers@), d@) {
            Some(p) => r matches Err(e) && e@ == p,
            None => r is Ok,
        },
{
    let ghost all = answers_view(answers@);
    let n = answers.len();
    let mut j: usize = 0;
    proof {
        assert(all.skip(0) =~= all);
    }
    while j < n
        invariant
            j <= n,
            n == answers@.len(),
            all == answers_view(answers@),
            identity_problem(all, d@) == identity_problem(all.skip(j as int), d@),
        decreases n - j,
    {
        proof {
            assert(all.skip(j as int)[0] == all[j as int]);
            assert(all.skip(j as int).drop_first() =~= all.skip(j + 1));
        }
        if same_definition(&answers[j].0, d) {
            return match &answers[j].1 {
                Ok(()) => Ok(()),
                Err(e) => Err(e.clone()),
            };
        }
        j = j + 1;
    }
    proof {
        assert(all.skip(n as int).len() == 0);
    }
    Ok(())
}

proof fn lemma_problem_prefix(defs: Seq<DefinitionModel>, k: int)
    requires
        0 <= k <= defs.len(),
        definitions_problem(defs.take(k)) is Some,
    ensures
        definitions_problem(defs) == definitions_problem(defs.take(k)),
    decreases defs.len() - k,
{
    if k < defs.len() {
        assert(defs.take(k + 1).drop_last() =~= defs.take(k));
        lemma_problem_prefix(defs, k + 1);
    } else {
        assert(defs.take(k) =~= defs);
    }
}

/// The first match is at `i` when `i` matches and nothing before it does.
pub proof fn lemma_first_where_at<A>(s: Seq<A>, pred: spec_fn(A) -> bool, i: int)
    requires
        0 <= i < s.len(),
        pred(s[i]),
        forall|j: int| 0 <= j < i ==> !pred(#[trigger] s[j]),
    ensures
        first_where(s, pred) == Some(i),
{
    lemma_first_where(s, pred);
    let k = first_where(s, pred)->0;
    if k < i {
        assert(!pred(s[k]));
    }
    if i < k {
        assert(!pred(s[i]));
    }
}

/// Definitions other than the one with identifier `id`.
pub open spec fn other_than(id: Seq<char>) -> spec_fn(DefinitionModel) -> bool {
    |d: DefinitionModel| d.id != id
}

/// Assignments to profiles other than `id`.
pub open spec fn not_using(id: Seq<char>) -> spec_fn(AssignmentModel) -> bool {
    |a: AssignmentModel| a.profile != id
}

/// Assignments of worktrees other than `worktree`.
pub open spec fn elsewhere(worktree: Seq<u8>) -> spec_fn(AssignmentModel) -> bool {
    |a: AssignmentModel| !same_path(a.worktree, worktree)
}

fn position_of_id(defs: &Vec<Definition>, id: &String) -> (r: Option<usize>)
    ensures
        match r {
            Some(i) => first_where(definition_views(defs@), with_identifier(id@)) == Some(i as int),
            None => first_where(definition_views(defs@), with_identifier(id@)) is None,
        },
{
    let ghost views = definition_views(defs@);
    let mut j: usize = 0;
    while j < defs.len()
        invariant
            j <= defs@.len(),
            views == definition_views(defs@),
            forall|m: int| 0 <= m < j ==> !with_identifier(id@)(#[trigger] views[m]),
        decreases defs@.len() - j,
    {
        proof {
            assert(views[j as int] == defs@[j as int]@);
        }
        if defs[j].id == *id {
            proof {
                lemma_first_where_at(views, with_identifier(id@), j as int);
            }
            return Some(j);
        }
        j = j + 1;
    }
    proof {
        lemma_first_where(views, with_identifier(id@));
    }
    None
}

fn holds_definition(defs: &Vec<Definition>, d: &Definition) -> (r: bool)
    ensures
        r == exists|j: int| 0 <= j < defs@.len() && #[trigger] definition_views(defs@)[j] == d@,
{
    let ghost views = definition_views(defs@);
    let mut j: usize = 0;
    while j < defs.len()
        invariant
            j <= defs@.len(),
            views == definition_views(defs@),
            forall|m: int| 0 <= m < j ==> #[trigger] views[m] != d@,
        decreases defs@.len() - j,
    {
        proof {
            assert(views[j as int] == defs@[j as int]@);
        }
        if same_definition(&defs[j], d) {
            return true;
        }
        j = j + 1;
    }
    false
}

fn without_definition(defs: &Vec<Definition>, id: &String) -> (r: Vec<Definition>)
    ensures
        definition_views(r@) == definition_views(defs@).filter(other_than(id@)),
{
    let ghost views = definition_views(defs@);
    let mut r: Vec<Definition> = Vec::new();
    let mut j: usize = 0;
    proof {
        assert(views.take(0) =~= Seq::<DefinitionModel>::empty());
        assert(definition_views(r@) =~= Seq::<DefinitionModel>::empty());
    }
    while j < defs.len()
        invariant
            j <= defs@.len(),
            views == definition_views(defs@),
            definition_views(r@) == views.take(j as int).filter(other_than(id@)),
        decreases defs@.len() - j,
    {
        let ghost grown = views.take(j + 1);
        proof {
            reveal(Seq::filter);
            assert(grown.drop_last() =~= views.take(j as int));
            assert(grown.last() == defs@[j as int]@);
        }
        if defs[j].id != *id {
            let copy = defs[j].clone();
            let ghost before = r@;
            r.push(copy);
            proof {
                assert(copy@ == defs@[j as int]@);
                assert(definition_views(r@) =~= definition_views(before).push(copy@));
            }
        }
        j = j + 1;
    }
    proof {
        assert(views.take(views.len() as int) =~= views);
    }
    r
}

fn keep_assignments(asg: &Vec<Assignment>, id: &String, worktree: &[u8], by_profile: bool) -> (r: Vec<Assignment>)
    ensures
        by_profile ==> assignment_views(r@) == assignment_views(asg@).filter(not_using(id@)),
        !by_profile ==> assignment_views(r@) == assignment_views(asg@).filter(elsewhere(worktree@)),
{
    let ghost views = assignment_views(asg@);
    let ghost pred = if by_profile {
        not_using(id@)
    } else {
        elsewhere(worktree@)
    };
    let mut r: Vec<Assignment> = Vec::new();
    let mut j: usize = 0;
    proof {
        assert(views.take(0) =~= Seq::<AssignmentModel>::empty());
        assert(assignment_views(r@) =~= Seq::<AssignmentModel>::empty());
    }
    while j < asg.len()
        invariant
            j <= asg@.len(),
            views == assignment_views(asg@),
            pred == (if by_profile {
                not_using(id@)
            } else {
                elsewhere(worktree@)
            }),
            assignment_views(r@) == views.take(j as int).filter(pred),
        decreases asg@.len() - j,
    {
        let ghost grown = views.take(j + 1);
        proof {
            reveal(Seq::filter);
            assert(grown.drop_last() =~= views.take(j as int));
            assert(grown.last() == asg@[j as int]@);
        }
        let keep = if by_profile {
            asg[j].profile != *id
        } else {
            !paths_equal(asg[j].worktree.as_slice(), worktree)
        };
        if keep {
            let copy = asg[j].clone();
            let ghost before = r@;
            r.push(copy);
            proof {
                assert(copy@ == asg@[j as int]@);
                assert(assignment_views(r@) =~= assignment_views(before).push(copy@));
            }
        }
        j = j + 1;
    }
    proof {
        assert(views.take(views.len() as int) =~= views);
    }
    r
}

impl Default for Store {
    fn default() -> (r: Self)
        ensures
            r@ == (StoreModel {
                version: 1,
                definitions: Seq::empty(),
                assignments: Seq::empty(),
            }),
    {
        let r = Store { version: 1, definitions: Vec::new(), assignments: Vec::new() };
        proof {
            assert(r@.definitions =~= Seq::<DefinitionModel>::empty());
            assert(r@.assignments =~= Seq::<AssignmentModel>::empty());
        }
        r
    }
}

impl Store {
    /// The store after `mutation`, or why it was refused; the store the
    /// mutation was checked against is left as it was.
    pub fn apply(&self, mutation: &Mutation) -> (r: Result<Store, String>)
        ensures
            match updated(self@, mutation@) {
                Ok(next) => r matches Ok(s) && s@ == next,
                Err(e) => r matches Err(m) && m@ == e,
            },
    {
        let none: Vec<(Definition, Result<(), String>)> = Vec::new();
        proof {
            assert(answers_view(none@) =~= seq![]);
            lemma_no_answers_store(self@, mutation@);
        }
        self.apply_with_identities(mutation, &none)
    }

    /// The store after `mutation`, or why it was refused, given what
    /// checking Git identities answered: a saved definition's identity is
    /// checked with its identifier and name, and every identity again with
    /// the store.
    pub fn apply_with_identities(
        &self,
        mutation: &Mutation,
        answers: &Vec<(Definition, Result<(), String>)>,
    ) -> (r: Result<Store, String>)
        ensures
            match updated_with(self@, mutation@, answers_view(answers@)) {
                Ok(next) => r matches Ok(s) && s@ == next,
                Err(e) => r matches Err(m) && m@ == e,
            },
    {
        if let Mutation::Save { definition, .. } = mutation {
            match definition.validate() {
                Ok(()) => {},
                Err(e) => {
                    return Err(e);
                },
            }
            match identity_answer(answers, definition) {
                Ok(()) => {},
                Err(e) => {
                    return Err(e);
                },
            }
        }
        let mut store = self.clone();
        match mutation {
            Mutation::Save { previous, definition } => {
                match definition.validate() {
                    Ok(()) => {},
                    Err(e) => {
                        return Err(e);
                    },
                }
                let current = position_of_id(&store.definitions, &definition.id);
                proof {
                    lemma_first_where(definition_views(store.definitions@), with_identifier(
                        definition@.id,
                    ));
                }
                let unchanged = match (current, previous) {
                    (Some(i), Some(p)) => {
                        proof {
                            assert(definition_views(store.definitions@)[i as int]
                                == store.definitions@[i as int]@);
                        }
                        same_definition(&store.definitions[i], p)
                    },
                    (None, None) => true,
                    _ => false,
                };
                if !unchanged {
                    return Err(
                        "This profile changed elsewhere. Reopen its editor before saving.".to_owned(),
                    );
                }
                let ghost before = store.definitions@;
                let copy = definition.clone();
                match current {
                    Some(i) => {
                        store.definitions.set(i, copy);
                        proof {
                            assert(definition_views(store.definitions@) =~= definition_views(
                                before,
                            ).update(i as int, definition@));
                        }
                    },
                    None => {
                        store.definitions.push(copy);
                        proof {
                            assert(definition_views(store.definitions@) =~= definition_views(
                                before,
                            ).push(definition@));
                        }
                    },
                }
            },
            Mutation::Delete(expected) => {
                if !holds_definition(&store.definitions, expected) {
                    return Err("This profile changed elsewhere. Review deletion again.".to_owned());
                }
                store.definitions = without_definition(&store.definitions, &expected.id);
                store.assignments = keep_assignments(&store.assignments, &expected.id, &[], true);
            },
            Mutation::Assign { worktree, profile } => {
                if !path_is_absolute(worktree.as_slice()) || !holds_definition(
                    &store.definitions,
                    profile,
                ) {
                    return Err(
                        "Git configuration was applied, but the saved profile changed. Reopen the picker to review the assignment.".to_owned(),
                    );
                }
                let mut kept = keep_assignments(
                    &store.assignments,
                    &profile.id,
                    worktree.as_slice(),
                    false,
                );
                let ghost before = kept@;
                let added = Assignment {
                    worktree: copy_bytes(worktree.as_slice()),
                    profile: profile.id.clone(),
                };
                let ghost added_view = added@;
                kept.push(added);
                proof {
                    assert(assignment_views(kept@) =~= assignment_views(before).push(added_view));
                }
                store.assignments = kept;
            },
        }
        match store.validate_with_identities(answers) {
            Ok(()) => Ok(store),
            Err(e) => Err(e),
        }
    }
}

/// Saved definitions without a problem have distinct identifiers.
proof fn lemma_unique_identifiers(defs: Seq<DefinitionModel>)
    requires
        definitions_problem(defs) is None,
    ensures
        forall|i: int, j: int|
            0 <= i < j < defs.len() ==> (#[trigger] defs[i]).id != (#[trigger] defs[j]).id,
    decreases defs.len(),
{
    if defs.len() > 0 {
        let prefix = defs.drop_last();
        lemma_unique_identifiers(prefix);
        assert forall|i: int, j: int| 0 <= i < j < defs.len() implies (#[trigger] defs[i]).id != (
        #[trigger] defs[j]).id by {
            if j < defs.len() - 1 {
                assert(defs[i] == prefix[i]);
                assert(defs[j] == prefix[j]);
            } else {
                assert(defs[i] == prefix[i]);
                assert(!clashes(prefix, defs.last()));
                assert(!(prefix[i].id == defs.last().id || lowercase(prefix[i].label) == lowercase(
                    defs.last().label,
                )));
            }
        }
    }
}

/// After an assignment is saved, the worktree uses exactly that profile.
pub proof fn law_assignment_reads_back(s: StoreModel, worktree: Seq<u8>, profile: DefinitionModel)
    requires
        updated(s, MutationModel::Assign { worktree: worktree, profile: profile }) is Ok,
    ensures
        assigned_profile(
            updated(s, MutationModel::Assign { worktree: worktree, profile: profile })->Ok_0,
            worktree,
        ) == Some(profile),
{
    let next = updated(s, MutationModel::Assign { worktree: worktree, profile: profile })->Ok_0;
    let kept = s.assignments.filter(elsewhere(worktree));
    let added = AssignmentModel { worktree: worktree, profile: profile.id };
    assert(next.assignments == kept.push(added));
    crate::paths::lemma_same_path_is_equivalence();
    assert forall|m: int| 0 <= m < kept.len() implies !at_worktree(worktree)(
        #[trigger] next.assignments[m],
    ) by {
        assert(next.assignments[m] == kept[m]);
        s.assignments.lemma_filter_pred(elsewhere(worktree), m);
        assert(elsewhere(worktree)(kept[m]));
    }
    lemma_first_where_at(next.assignments, at_worktree(worktree), kept.len() as int);
    let defs = next.definitions;
    assert(defs == s.definitions);
    let j = choose|j: int| 0 <= j < defs.len() && #[trigger] defs[j] == profile;
    lemma_unique_identifiers(defs);
    assert forall|m: int| 0 <= m < j implies !with_identifier(profile.id)(#[trigger] defs[m]) by {
        assert(defs[m].id != defs[j].id);
    }
    lemma_first_where_at(defs, with_identifier(profile.id), j);
}

/// Deleting a profile leaves no definition with its identifier and no
/// worktree assigned to it.
pub proof fn law_delete_forgets_the_profile(s: StoreModel, expected: DefinitionModel)
    requires
        updated(s, MutationModel::Delete(expected)) is Ok,
    ensures
        forall|i: int|
            0 <= i < updated(s, MutationModel::Delete(expected))->Ok_0.definitions.len()
                ==> (#[trigger] updated(s, MutationModel::Delete(expected))->Ok_0.definitions[i]).id
                != expected.id,
        forall|i: int|
            0 <= i < updated(s, MutationModel::Delete(expected))->Ok_0.assignments.len()
                ==> (#[trigger] updated(
                s,
                MutationModel::Delete(expected),
            )->Ok_0.assignments[i]).profile != expected.id,
{
    let next = updated(s, MutationModel::Delete(expected))->Ok_0;
    let defs = s.definitions.filter(other_than(expected.id));
    let asg = s.assignments.filter(not_using(expected.id));
    assert(next.definitions == defs);
    assert(next.assignments == asg);
    assert forall|i: int| 0 <= i < defs.len() implies (#[trigger] defs[i]).id != expected.id by {
        s.definitions.lemma_filter_pred(other_than(expected.id), i);
    }
    assert forall|i: int| 0 <= i < asg.len() implies (#[trigger] asg[i]).profile != expected.id by {
        s.assignments.lemma_filter_pred(not_using(expected.id), i);
    }
}

/// Deleting a profile takes out only what uses it: every other definition
/// and every assignment of a worktree to another profile stays, and nothing
/// is added.
pub proof fn law_delete_keeps_the_other_profiles(s: StoreModel, expected: DefinitionModel)
    requires
        updated(s, MutationModel::Delete(expected)) is Ok,
    ensures
        forall|i: int|
            0 <= i < s.assignments.len() && (#[trigger] s.assignments[i]).profile != expected.id
                ==> updated(s, MutationModel::Delete(expected))->Ok_0.assignments.contains(
                s.assignments[i],
            ),
        forall|a: AssignmentModel|
            #[trigger] updated(s, MutationModel::Delete(expected))->Ok_0.assignments.contains(a)
                ==> s.assignments.contains(a) && a.profile != expected.id,
        forall|i: int|
            0 <= i < s.definitions.len() && (#[trigger] s.definitions[i]).id != expected.id
                ==> updated(s, MutationModel::Delete(expected))->Ok_0.definitions.contains(
                s.definitions[i],
            ),
        forall|d: DefinitionModel|
            #[trigger] updated(s, MutationModel::Delete(expected))->Ok_0.definitions.contains(d)
                ==> s.definitions.contains(d) && d.id != expected.id,
{
    let next = updated(s, MutationModel::Delete(expected))->Ok_0;
    let defs = s.definitions.filter(other_than(expected.id));
    let asg = s.assignments.filter(not_using(expected.id));
    assert(next.definitions == defs);
    assert(next.assignments == asg);
    assert forall|i: int|
        0 <= i < s.assignments.len() && (#[trigger] s.assignments[i]).profile != expected.id implies asg.contains(
        s.assignments[i],
    ) by {
        s.assignments.lemma_filter_contains(not_using(expected.id), i);
    }
    assert forall|a: AssignmentModel| #[trigger] asg.contains(a) implies s.assignments.contains(a)
        && a.profile != expected.id by {
        s.assignments.lemma_filter_contains_rev(not_using(expected.id), a);
        let k = choose|k: int| 0 <= k < asg.len() && asg[k] == a;
        s.assignments.lemma_filter_pred(not_using(expected.id), k);
    }
    assert forall|i: int|
        0 <= i < s.definitions.len() && (#[trigger] s.definitions[i]).id != expected.id implies defs.contains(
        s.definitions[i],
    ) by {
        s.definitions.lemma_filter_contains(other_than(expected.id), i);
    }
    assert forall|d: DefinitionModel| #[trigger] defs.contains(d) implies s.definitions.contains(d)
        && d.id != expected.id by {
        s.definitions.lemma_filter_contains_rev(other_than(expected.id), d);
        let k = choose|k: int| 0 <= k < defs.len() && defs[k] == d;
        s.definitions.lemma_filter_pred(other_than(expected.id), k);
    }
}

/// The same holds when Git identities are checked too: deleting a profile
/// keeps every other definition and every assignment to another profile.
pub proof fn law_delete_with_identities_keeps_the_other_profiles(
    s: StoreModel,
    expected: DefinitionModel,
    answers: Seq<(DefinitionModel, Option<Seq<char>>)>,
)
    requires
        updated_with(s, MutationModel::Delete(expected), answers) is Ok,
    ensures
        forall|i: int|
            0 <= i < s.assignments.len() && (#[trigger] s.assignments[i]).profile != expected.id
                ==> updated_with(s, MutationModel::Delete(expected), answers)->Ok_0.assignments.contains(
                s.assignments[i],
            ),
        forall|a: AssignmentModel|
            #[trigger] updated_with(s, MutationModel::Delete(expected), answers)->Ok_0.assignments.contains(
                a,
            ) ==> s.assignments.contains(a) && a.profile != expected.id,
        forall|i: int|
            0 <= i < s.definitions.len() && (#[trigger] s.definitions[i]).id != expected.id
                ==> updated_with(s, MutationModel::Delete(expected), answers)->Ok_0.definitions.contains(
                s.definitions[i],
            ),
{
    let next = updated_with(s, MutationModel::Delete(expected), answers)->Ok_0;
    let defs = s.definitions.filter(other_than(expected.id));
    let asg = s.assignments.filter(not_using(expected.id));
    assert(next.definitions == defs);
    assert(next.assignments == asg);
    assert forall|i: int|
        0 <= i < s.assignments.len() && (#[trigger] s.assignments[i]).profile != expected.id implies asg.contains(
        s.assignments[i],
    ) by {
        s.assignments.lemma_filter_contains(not_using(expected.id), i);
    }
    assert forall|a: AssignmentModel| #[trigger] asg.contains(a) implies s.assignments.contains(a)
        && a.profile != expected.id by {
        s.assignments.lemma_filter_contains_rev(not_using(expected.id), a);
        let k = choose|k: int| 0 <= k < asg.len() && asg[k] == a;
        s.assignments.lemma_filter_pred(not_using(expected.id), k);
    }
    assert forall|i: int|
        0 <= i < s.definitions.len() && (#[trigger] s.definitions[i]).id != expected.id implies defs.contains(
        s.definitions[i],
    ) by {
        s.definitions.lemma_filter_contains(other_than(expected.id), i);
    }
}

/// Keeping only the entries that pass `keep` keeps the first match of
/// `pred` when that match passes, and finds none when there was none.
proof fn lemma_first_where_filter<A>(s: Seq<A>, pred: spec_fn(A) -> bool, keep: spec_fn(A) -> bool)
    ensures
        first_where(s, pred) is Some && keep(s[first_where(s, pred)->0]) ==> (first_where(
            s.filter(keep),
            pred,
        ) is Some && 0 <= first_where(s.filter(keep), pred)->0 < s.filter(keep).len() && s.filter(
            keep,
        )[first_where(s.filter(keep), pred)->0] == s[first_where(s, pred)->0]),
        first_where(s, pred) is None ==> first_where(s.filter(keep), pred) is None,
    decreases s.len(),
{
    reveal(Seq::filter);
    if s.len() > 0 {
        let rest = s.drop_last();
        lemma_first_where_filter(rest, pred, keep);
        lemma_first_where(rest, pred);
        lemma_first_where(s, pred);
        let f = s.filter(keep);
        let fr = rest.filter(keep);
        if keep(s.last()) {
            assert(f == fr.push(s.last()));
            assert(f.drop_last() =~= fr);
        } else {
            assert(f == fr);
        }
        match first_where(rest, pred) {
            Some(i) => {
                assert(rest[i] == s[i]);
                if keep(s[i]) {
                    let k = first_where(fr, pred)->0;
                    if keep(s.last()) {
                        assert(first_where(f, pred) == first_where(fr, pred));
                        assert(f[k] == fr[k]);
                    }
                }
            },
            None => {
                if keep(s.last()) {
                    assert(first_where(f, pred) == (if pred(s.last()) {
                        Some(f.len() - 1)
                    } else {
                        None::<int>
                    }));
                }
            },
        }
    }
}

/// Deleting a profile changes no other worktree's profile: a worktree that
/// used another profile uses the same one afterwards.
pub proof fn law_delete_keeps_other_worktrees_assigned(s: StoreModel, expected: DefinitionModel, worktree: Seq<u8>)
    requires
        updated(s, MutationModel::Delete(expected)) is Ok,
        assigned_profile(s, worktree) matches Some(d) && d.id != expected.id,
    ensures
        assigned_profile(updated(s, MutationModel::Delete(expected))->Ok_0, worktree)
            == assigned_profile(s, worktree),
{
    let next = updated(s, MutationModel::Delete(expected))->Ok_0;
    let i = first_where(s.assignments, at_worktree(worktree))->0;
    lemma_first_where(s.assignments, at_worktree(worktree));
    let p = s.assignments[i].profile;
    let j = first_where(s.definitions, with_identifier(p))->0;
    lemma_first_where(s.definitions, with_identifier(p));
    assert(s.definitions[j].id == p);
    assert(p != expected.id);
    assert(next.assignments == s.assignments.filter(not_using(expected.id)));
    assert(next.definitions == s.definitions.filter(other_than(expected.id)));
    lemma_first_where_filter(s.assignments, at_worktree(worktree), not_using(expected.id));
    lemma_first_where_filter(s.definitions, with_identifier(p), other_than(expected.id));
    let k = first_where(next.assignments, at_worktree(worktree))->0;
    assert(next.assignments[k] == s.assignments[i]);
}

} // verus!
