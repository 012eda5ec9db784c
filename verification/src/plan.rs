use vstd::prelude::*;
use vstd::utf8::encode_utf8;
use crate::dsl::{defined_at, lemma_defined_at_bounds, texts, Named, ParamView, RelationParam, Rels};
use crate::err::OpenError;
use crate::token::{lossy_text, lossy_utf8, DQUOTE, RE};

verus! {

/// Why a named relation could not be made.
#[derive(PartialEq, Eq, Clone, Copy, Debug, Structural)]
pub enum RelationError {
    /// The text of the statements is malformed.
    ParseError,
    /// A name is not defined, is defined in terms of itself, or is defined
    /// by a `restrict` statement, for which there is no grammar; or a
    /// column is named that the base does not have.
    UnresolvedName,
    /// A file that a pattern matched differs in its columns from the
    /// members before it.
    SchemaMismatchInUnion,
    /// A file or a directory could not be read.
    FileNotFound,
    /// A file was read, but could not be opened as a relation.
    Open(OpenError),
}

/// A member of a union, as planned.
pub enum MemberView {
    Path { path: Seq<char> },
    Pattern { dir: Seq<char>, regex: Seq<char> },
    Named { plan: PlanView },
}

/// A relation, as planned.
pub enum PlanView {
    File { path: Seq<char> },
    Union { members: Seq<MemberView> },
    Projection { base: Box<PlanView>, columns: Seq<Seq<char>> },
    Unique { base: Box<PlanView>, columns: Seq<Seq<char>> },
}

/// A member of a union: a file by its path, the files of a directory whose
/// names match a pattern, or another relation.
pub enum Member {
    Path { path: String },
    Pattern { dir: String, regex: String },
    Named { plan: Plan },
}

/// The plan of a relation: the operators to make, down to the files to
/// open.
pub enum Plan {
    File { path: String },
    Union { members: Vec<Member> },
    Projection { base: Box<Plan>, columns: Vec<String> },
    Unique { base: Box<Plan>, columns: Vec<String> },
}

impl Member {
    pub open spec fn view(&self) -> MemberView
        decreases self,
    {
        match self {
            Member::Path { path } => MemberView::Path { path: path@ },
            Member::Pattern { dir, regex } => MemberView::Pattern { dir: dir@, regex: regex@ },
            Member::Named { plan } => MemberView::Named { plan: plan.view() },
        }
    }
}

/// The views of the members.
pub open spec fn member_views(members: Seq<Member>) -> Seq<MemberView>
    decreases members,
{
    Seq::new(members.len(), |i: int| if 0 <= i < members.len() {
        members[i].view()
    } else {
        MemberView::Path { path: Seq::empty() }
    })
}

impl Plan {
    pub open spec fn view(&self) -> PlanView
        decreases self,
    {
        match self {
            Plan::File { path } => PlanView::File { path: path@ },
            Plan::Union { members } => PlanView::Union { members: member_views(members@) },
            Plan::Projection { base, columns } => PlanView::Projection {
                base: Box::new(base.view()),
                columns: texts(columns@),
            },
            Plan::Unique { base, columns } => PlanView::Unique {
                base: Box::new(base.view()),
                columns: texts(columns@),
            },
        }
    }
}

/// Whether a text of at least two bytes begins with the byte `q` and ends
/// with it.
pub open spec fn quoted(text: Seq<char>, q: u8) -> bool {
    let b = encode_utf8(text);
    b.len() >= 2 && b[0] == q && b.last() == q
}

/// The bytes between the first and the last byte of a text.
pub open spec fn inner(text: Seq<char>) -> Seq<u8> {
    let b = encode_utf8(text);
    b.subrange(1, b.len() - 1)
}

/// The index of the last slash among the first `n` bytes, if there is one.
pub open spec fn last_slash(b: Seq<u8>, n: int) -> Option<int>
    decreases n,
{
    if n <= 0 {
        None
    } else if b[n - 1] == RE {
        Some(n - 1)
    } else {
        last_slash(b, n - 1)
    }
}

pub proof fn lemma_last_slash_bounds(b: Seq<u8>, n: int)
    requires
        n <= b.len(),
    ensures
        last_slash(b, n) matches Some(i) ==> 0 <= i < n,
    decreases n,
{
    if n > 0 && b[n - 1] != RE {
        lemma_last_slash_bounds(b, n - 1);
    }
}

/// The directory that a pattern names: what stands before its last slash,
/// or the current directory where it has no slash.
pub open spec fn pattern_dir(b: Seq<u8>) -> Seq<char> {
    match last_slash(b, b.len() as int) {
        Some(i) => lossy_utf8(b.subrange(0, i)),
        None => "."@,
    }
}

/// The expression that a pattern holds file names against: what stands
/// behind its last slash.
pub open spec fn pattern_regex(b: Seq<u8>) -> Seq<char> {
    match last_slash(b, b.len() as int) {
        Some(i) => lossy_utf8(b.subrange(i + 1, b.len() as int)),
        None => lossy_utf8(b),
    }
}

/// The path that a `file` statement names: the text between double quotes,
/// or the whole text where it is not quoted.
pub open spec fn file_path(text: Seq<char>) -> Seq<char> {
    if quoted(text, DQUOTE) {
        lossy_utf8(inner(text))
    } else {
        text
    }
}

/// The members of a union, planned from its arguments: a text in double
/// quotes is the path of a file; a text in slashes is a pattern; any other
/// text is the name of a relation, which is left out where it cannot be
/// planned.
pub open spec fn plan_members(stmts: Seq<Named>, args: Seq<Seq<char>>, fuel: nat) -> Seq<MemberView>
    decreases fuel, args.len(),
{
    if args.len() == 0 {
        Seq::empty()
    } else {
        let before = plan_members(stmts, args.drop_last(), fuel);
        let arg = args.last();
        if quoted(arg, DQUOTE) {
            before.push(MemberView::Path { path: lossy_utf8(inner(arg)) })
        } else if quoted(arg, RE) {
            before.push(
                MemberView::Pattern { dir: pattern_dir(inner(arg)), regex: pattern_regex(inner(arg)) },
            )
        } else {
            match plan_of(stmts, arg, fuel) {
                Ok(plan) => before.push(MemberView::Named { plan }),
                Err(_) => before,
            }
        }
    }
}

/// The plan of the relation with the given name. Names are followed
/// through at most `fuel` statements, so that a name defined in terms of
/// itself is not resolved.
pub open spec fn plan_of(stmts: Seq<Named>, name: Seq<char>, fuel: nat) -> Result<
    PlanView,
    RelationError,
>
    decreases fuel, 0nat,
{
    if fuel == 0 {
        Err(RelationError::UnresolvedName)
    } else {
        match defined_at(stmts, name) {
            None => Err(RelationError::UnresolvedName),
            Some(i) => match stmts[i].param {
                ParamView::Restriction { .. } => Err(RelationError::UnresolvedName),
                ParamView::File { filename } => Ok(PlanView::File { path: file_path(filename) }),
                ParamView::Unique { base, columns } => match plan_of(stmts, base, (fuel - 1) as nat) {
                    Ok(b) => Ok(PlanView::Unique { base: Box::new(b), columns }),
                    Err(e) => Err(e),
                },
                ParamView::Projection { base, columns } => match plan_of(
                    stmts,
                    base,
                    (fuel - 1) as nat,
                ) {
                    Ok(b) => Ok(PlanView::Projection { base: Box::new(b), columns }),
                    Err(e) => Err(e),
                },
                ParamView::Union { relations } => Ok(
                    PlanView::Union { members: plan_members(stmts, relations, (fuel - 1) as nat) },
                ),
            },
        }
    }
}

/// The bytes between the first and the last byte of `s`, where `s` has at
/// least two bytes and begins and ends with the byte `q`.
pub fn quoted_bytes(s: &str, q: u8) -> (r: Option<&[u8]>)
    ensures
        match r {
            Some(b) => quoted(s@, q) && b@ == inner(s@),
            None => !quoted(s@, q),
        },
{
    let b = s.as_bytes();
    let n = b.len();
    if n >= 2 && b[0] == q && b[n - 1] == q {
        Some(vstd::slice::slice_subrange(b, 1, n - 1))
    } else {
        None
    }
}

/// The text between the first and the last byte of `s`, where `s` has at
/// least two bytes and begins and ends with the byte `q`.
pub fn unquote(s: &str, q: u8) -> (r: Option<String>)
    ensures
        match r {
            Some(t) => quoted(s@, q) && t@ == lossy_utf8(inner(s@)),
            None => !quoted(s@, q),
        },
{
    match quoted_bytes(s, q) {
        Some(b) => Some(lossy_text(b)),
        None => None,
    }
}

/// The directory and the expression of a pattern.
pub fn split_pattern(b: &[u8]) -> (r: (String, String))
    ensures
        r.0@ == pattern_dir(b@),
        r.1@ == pattern_regex(b@),
{
    let n = b.len();
    let mut i: usize = n;
    while i > 0
        invariant
            i <= n,
            n == b@.len(),
            last_slash(b@, i as int) == last_slash(b@, n as int),
        decreases i,
    {
        i -= 1;
        if b[i] == RE {
            return (
                lossy_text(vstd::slice::slice_subrange(b, 0, i)),
                lossy_text(vstd::slice::slice_subrange(b, i + 1, n)),
            );
        }
    }
    proof {
        assert(b@.subrange(0, n as int) =~= b@);
    }
    (".".to_owned(), lossy_text(vstd::slice::slice_subrange(b, 0, n)))
}

/// Copies a list of strings.
pub fn copy_strings(v: &Vec<String>) -> (r: Vec<String>)
    ensures
        texts(r@) == texts(v@),
{
    let mut out: Vec<String> = Vec::new();
    let mut i: usize = 0;
    while i < v.len()
        invariant
            i <= v@.len(),
            out@.len() == i,
            texts(out@) == texts(v@).take(i as int),
        decreases v@.len() - i,
    {
        let ghost o = out@;
        let c = v[i].as_str().to_owned();
        assert(c@ == v@[i as int]@);
        out.push(c);
        i += 1;
        proof {
            assert(out@ == o.push(c));
            assert(o.len() == i - 1);
            assert forall|k: int| 0 <= k < i implies texts(out@)[k] == texts(v@).take(i as int)[k] by {
                if k < i - 1 {
                    assert(texts(o)[k] == texts(v@).take(i - 1)[k]);
                }
            }
            assert(texts(out@) =~= texts(v@).take(i as int));
        }
    }
    proof {
        assert(texts(v@).take(v@.len() as int) =~= texts(v@));
    }
    out
}

/// Plans the members of a union.
pub fn plan_union(relations: &Vec<String>, rels: &Rels, fuel: usize) -> (r: Vec<Member>)
    ensures
        member_views(r@) == plan_members(rels@, texts(relations@), fuel as nat),
    decreases fuel, 1nat,
{
    let mut members: Vec<Member> = Vec::new();
    let mut i: usize = 0;
    proof {
        assert(texts(relations@).take(0) =~= Seq::<Seq<char>>::empty());
        assert(member_views(members@) =~= Seq::<MemberView>::empty());
    }
    while i < relations.len()
        invariant
            i <= relations@.len(),
            member_views(members@) == plan_members(
                rels@,
                texts(relations@).take(i as int),
                fuel as nat,
            ),
        decreases relations@.len() - i,
    {
        let arg = relations[i].as_str();
        let ghost before = members@;
        let ghost args = texts(relations@).take(i + 1);
        proof {
            assert(args.drop_last() =~= texts(relations@).take(i as int));
            assert(args.last() == arg@);
        }
        match unquote(arg, DQUOTE) {
            Some(path) => {
                members.push(Member::Path { path });
                proof {
                    assert(member_views(members@) =~= member_views(before).push(
                        MemberView::Path { path: path@ },
                    ));
                }
            },
            None => match quoted_bytes(arg, RE) {
                Some(pattern) => {
                    let (dir, regex) = split_pattern(pattern);
                    members.push(Member::Pattern { dir, regex });
                    proof {
                        assert(member_views(members@) =~= member_views(before).push(
                            MemberView::Pattern { dir: dir@, regex: regex@ },
                        ));
                    }
                },
                None => match plan_relation(arg, rels, fuel) {
                    Ok(plan) => {
                        members.push(Member::Named { plan });
                        proof {
                            assert(member_views(members@) =~= member_views(before).push(
                                MemberView::Named { plan: plan.view() },
                            ));
                        }
                    },
                    Err(_) => {},
                },
            },
        }
        i += 1;
    }
    proof {
        assert(texts(relations@).take(relations@.len() as int) =~= texts(relations@));
    }
    members
}

/// Plans the relation with the given name, following names through at most
/// `fuel` statements.
pub fn plan_relation(name: &str, rels: &Rels, fuel: usize) -> (r: Result<Plan, RelationError>)
    ensures
        match r {
            Ok(p) => plan_of(rels@, name@, fuel as nat) == Ok::<PlanView, RelationError>(p.view()),
            Err(e) => plan_of(rels@, name@, fuel as nat) == Err::<PlanView, RelationError>(e),
        },
    decreases fuel, 0nat,
{
    if fuel == 0 {
        return Err(RelationError::UnresolvedName);
    }
    proof {
        lemma_defined_at_bounds(rels@, name@);
    }
    match rels.get(name) {
        None => Err(RelationError::UnresolvedName),
        Some(top) => match top {
            RelationParam::Restriction { .. } => Err(RelationError::UnresolvedName),
            RelationParam::File { filename } => {
                match unquote(filename.as_str(), DQUOTE) {
                    Some(path) => Ok(Plan::File { path }),
                    None => Ok(Plan::File { path: filename.as_str().to_owned() }),
                }
            },
            RelationParam::Unique { base, columns } => {
                match plan_relation(base.as_str(), rels, fuel - 1) {
                    Ok(b) => Ok(Plan::Unique { base: Box::new(b), columns: copy_strings(columns) }),
                    Err(e) => Err(e),
                }
            },
            RelationParam::Projection { base, columns } => {
                match plan_relation(base.as_str(), rels, fuel - 1) {
                    Ok(b) => Ok(
                        Plan::Projection { base: Box::new(b), columns: copy_strings(columns) },
                    ),
                    Err(e) => Err(e),
                }
            },
            RelationParam::Union { relations } => Ok(
                Plan::Union { members: plan_union(relations, rels, fuel - 1) },
            ),
        },
    }
}

} // verus!
