use vstd::prelude::*;
use crate::buf::Source;
use crate::dsl::{parse_relalgs, parse_text, texts};
use crate::err::OpenError;
use crate::hashset::TABLE_SLOTS;
use crate::layout::parse_schema;
use crate::mmapbuf::mapped;
use crate::plan::{plan_of, plan_relation, Member, MemberView, Plan, PlanView, RelationError};
use crate::rel::{
    concat_rows, named_at, project_columns, project_rows, same_shape, unnamed, AnyRelation,
    ConcatRelation, FileRelation, Projection, Relation,
};
use crate::scan::file_rows;
use crate::schema2::types_of;
use crate::types::{Cell, ColumnSpec};
use crate::unique::{unique_rows, UniqueRelation};
use memmap::Mmap;

verus! {

/// What has to be fetched for a leaf of a plan.
pub enum RequestView {
    Open { path: Seq<char> },
    Scan { dir: Seq<char>, regex: Seq<char> },
}

/// What has to be fetched for a leaf of a plan: the bytes of one file, or
/// the bytes of those files of a directory whose names match an
/// expression.
#[derive(Debug)]
pub enum Request {
    Open { path: String },
    Scan { dir: String, regex: String },
}

impl View for Request {
    type V = RequestView;

    open spec fn view(&self) -> RequestView {
        match self {
            Request::Open { path } => RequestView::Open { path: path@ },
            Request::Scan { dir, regex } => RequestView::Scan { dir: dir@, regex: regex@ },
        }
    }
}

/// The views of a list of requests.
pub open spec fn request_views(v: Seq<Request>) -> Seq<RequestView> {
    Seq::new(v.len(), |i: int| v[i]@)
}

/// The requests of the first `upto` members of a union, in order.
pub open spec fn member_leaves(members: Seq<MemberView>, upto: nat) -> Seq<RequestView>
    decreases members, upto,
{
    if upto == 0 || upto > members.len() {
        Seq::empty()
    } else {
        member_leaves(members, (upto - 1) as nat) + member_step(members[upto - 1])
    }
}

/// The requests of one member of a union.
pub open spec fn member_step(member: MemberView) -> Seq<RequestView>
    decreases member,
{
    match member {
        MemberView::Path { path } => seq![RequestView::Open { path }],
        MemberView::Pattern { dir, regex } => seq![RequestView::Scan { dir, regex }],
        MemberView::Named { plan } => leaves(plan),
    }
}

/// The requests of a plan, in the order in which making the relation uses
/// what was fetched.
pub open spec fn leaves(plan: PlanView) -> Seq<RequestView>
    decreases plan,
{
    match plan {
        PlanView::File { path } => seq![RequestView::Open { path }],
        PlanView::Union { members } => member_leaves(members, members.len()),
        PlanView::Projection { base, columns } => leaves(*base),
        PlanView::Unique { base, columns } => leaves(*base),
    }
}

/// Appends the requests of a member of a union to `out`.
pub fn collect_member(member: &Member, out: &mut Vec<Request>)
    ensures
        request_views(final(out)@) == request_views(old(out)@) + member_step(member.view()),
    decreases member,
{
    let ghost done = request_views(out@);
    match member {
        Member::Path { path } => {
            out.push(Request::Open { path: path.as_str().to_owned() });
            assert(request_views(out@) =~= done + seq![RequestView::Open { path: path@ }]);
        },
        Member::Pattern { dir, regex } => {
            out.push(
                Request::Scan { dir: dir.as_str().to_owned(), regex: regex.as_str().to_owned() },
            );
            assert(request_views(out@) =~= done + seq![
                RequestView::Scan { dir: dir@, regex: regex@ },
            ]);
        },
        Member::Named { plan } => {
            collect_requests(plan, out);
        },
    }
}

/// Appends the requests of a plan to `out`.
pub fn collect_requests(plan: &Plan, out: &mut Vec<Request>)
    ensures
        request_views(final(out)@) == request_views(old(out)@) + leaves(plan.view()),
    decreases plan,
{
    let ghost before = request_views(out@);
    match plan {
        Plan::File { path } => {
            out.push(Request::Open { path: path.as_str().to_owned() });
            assert(request_views(out@) =~= before + leaves(plan.view()));
        },
        Plan::Union { members } => {
            let ghost views = crate::plan::member_views(members@);
            let mut i: usize = 0;
            proof {
                assert(before + member_leaves(views, 0) =~= before);
            }
            while i < members.len()
                invariant
                    i <= members@.len(),
                    *plan == (Plan::Union { members: *members }),
                    views == crate::plan::member_views(members@),
                    request_views(out@) == before + member_leaves(views, i as nat),
                decreases members@.len() - i,
            {
                assert(views[i as int] == members@[i as int].view());
                let ghost done = request_views(out@);
                assert(decreases_to!(*members => members[i as int]));
                assert(plan->members == *members);
                assert(decreases_to!(*plan => plan->members));
                collect_member(&members[i], out);
                proof {
                    assert(before + member_leaves(views, i as nat) + member_step(views[i as int])
                        =~= before + (member_leaves(views, i as nat) + member_step(
                        views[i as int],
                    )));
                }
                i += 1;
            }
        },
        Plan::Projection { base, columns } => {
            collect_requests(base, out);
        },
        Plan::Unique { base, columns } => {
            collect_requests(base, out);
        },
    }
}

/// The requests of a plan, in the order in which making the relation uses
/// what was fetched.
pub fn requests(plan: &Plan) -> (r: Vec<Request>)
    ensures
        request_views(r@) == leaves(plan.view()),
{
    let mut out: Vec<Request> = Vec::new();
    collect_requests(plan, &mut out);
    assert(request_views(Seq::<Request>::empty()) + leaves(plan.view()) =~= leaves(plan.view()));
    out
}

/// Whether an expression matches a text, as the `regex` crate decides it;
/// nothing where the expression does not compile.
pub uninterp spec fn regex_match(pattern: Seq<char>, text: Seq<char>) -> Option<bool>;

/// `regex::Regex::new` and `Regex::is_match`: whether the expression
/// matches somewhere in the text, or nothing where it does not compile.
#[verifier::external_body]
pub(crate) fn regex_is_match(pattern: &str, text: &str) -> (r: Option<bool>)
    ensures
        r == regex_match(pattern@, text@),
{
    Some(regex::Regex::new(pattern).ok()?.is_match(text))
}

/// The names among the first `upto` of `names` that the expression
/// matches, in order; nothing where the expression does not compile.
pub open spec fn matching(pattern: Seq<char>, names: Seq<Seq<char>>, upto: nat) -> Option<
    Seq<Seq<char>>,
>
    decreases upto,
{
    if upto == 0 || upto > names.len() {
        Some(Seq::empty())
    } else {
        match (matching(pattern, names, (upto - 1) as nat), regex_match(pattern, names[upto - 1])) {
            (Some(before), Some(true)) => Some(before.push(names[upto - 1])),
            (Some(before), Some(false)) => Some(before),
            _ => None,
        }
    }
}

/// Once the expression has failed on a name, the selection has failed.
pub proof fn lemma_matching_fails(pattern: Seq<char>, names: Seq<Seq<char>>, i: nat, n: nat)
    requires
        i <= n <= names.len(),
        matching(pattern, names, i) is None,
    ensures
        matching(pattern, names, n) is None,
    decreases n - i,
{
    if i < n {
        lemma_matching_fails(pattern, names, i, (n - 1) as nat);
    }
}

/// Takes a name into the selection where the verdict on it says so.
/// Returns whether there was a verdict.
pub fn keep_match(out: &mut Vec<String>, name: &str, verdict: Option<bool>) -> (ok: bool)
    ensures
        ok == verdict is Some,
        texts(final(out)@) == if verdict == Some(true) {
            texts(old(out)@).push(name@)
        } else {
            texts(old(out)@)
        },
{
    match verdict {
        Some(true) => {
            out.push(name.to_owned());
            assert(texts(out@) =~= texts(old(out)@).push(name@));
            true
        },
        Some(false) => true,
        None => false,
    }
}

/// The names among `names` that an expression matches, in order; nothing
/// where the expression does not compile.
pub fn select_matching(pattern: &str, names: &Vec<String>) -> (r: Option<Vec<String>>)
    ensures
        match r {
            Some(v) => regex_match(pattern@, ""@) is Some && matching(
                pattern@,
                texts(names@),
                names@.len(),
            ) == Some(texts(v@)),
            None => regex_match(pattern@, ""@) is None || matching(
                pattern@,
                texts(names@),
                names@.len(),
            ) is None,
        },
{
    if regex_is_match(pattern, "").is_none() {
        return None;
    }
    let mut out: Vec<String> = Vec::new();
    let mut i: usize = 0;
    proof {
        assert(texts(out@) =~= Seq::<Seq<char>>::empty());
    }
    while i < names.len()
        invariant
            i <= names@.len(),
            regex_match(pattern@, ""@) is Some,
            matching(pattern@, texts(names@), i as nat) == Some(texts(out@)),
        decreases names@.len() - i,
    {
        let verdict = regex_is_match(pattern, names[i].as_str());
        if !keep_match(&mut out, names[i].as_str(), verdict) {
            proof {
                lemma_matching_fails(pattern@, texts(names@), (i + 1) as nat, names@.len());
            }
            return None;
        }
        i += 1;
    }
    Some(out)
}

/// What was fetched for a leaf of a plan.
pub enum LoadedView {
    File { bytes: Option<Seq<u8>> },
    Files { found: Option<Seq<Seq<u8>>> },
}

/// What was fetched for a leaf of a plan: the mapped bytes of one file, or
/// nothing where it could not be read; or the mapped bytes of the files of
/// a directory whose names match an expression, each with its path, or
/// nothing where the directory or one of the files could not be read.
pub enum Loaded {
    File { map: Option<Mmap> },
    Files { found: Option<Vec<(String, Mmap)>> },
}

/// The mapped bytes of the files.
pub open spec fn found_bytes(found: Seq<(String, Mmap)>) -> Seq<Seq<u8>> {
    Seq::new(found.len(), |i: int| mapped(found[i].1))
}

impl View for Loaded {
    type V = LoadedView;

    open spec fn view(&self) -> LoadedView {
        match self {
            Loaded::File { map } => LoadedView::File {
                bytes: match map {
                    Some(m) => Some(mapped(*m)),
                    None => None,
                },
            },
            Loaded::Files { found } => LoadedView::Files {
                found: match found {
                    Some(v) => Some(found_bytes(v@)),
                    None => None,
                },
            },
        }
    }
}

/// The views of what was fetched.
pub open spec fn loaded_views(v: Seq<Loaded>) -> Seq<LoadedView> {
    Seq::new(v.len(), |i: int| v[i]@)
}

/// What a relation is to its reader: its columns, if it has any to report,
/// and its rows.
pub struct Meaning {
    pub described: bool,
    pub columns: Seq<ColumnSpec>,
    pub rows: Seq<Seq<Cell>>,
}

/// Whether a relation is as a meaning says.
pub open spec fn means(rel: AnyRelation, m: Meaning) -> bool {
    &&& rel.inv()
    &&& rel.described() == m.described
    &&& rel.columns() == m.columns
    &&& rel.rows() == m.rows
}

/// The relation that the bytes of a file stand for: the columns of its
/// header, and the rows that a scan of what follows the header yields.
pub open spec fn file_meaning(bytes: Seq<u8>) -> Result<Meaning, RelationError> {
    if bytes.len() == 0 {
        Err(RelationError::Open(OpenError::EmptyFile))
    } else {
        let p = parse_schema(Source { pending: bytes, eof: false });
        match p.columns {
            None => Err(RelationError::Open(OpenError::SchemaParseError)),
            Some(cols) => Ok(
                Meaning { described: true, columns: cols, rows: file_rows(types_of(cols), p.left) },
            ),
        }
    }
}

/// The relation that what was fetched for the path of a file stands for.
pub open spec fn opened(loaded: Seq<LoadedView>) -> Result<Meaning, RelationError> {
    if loaded.len() == 0 {
        Err(RelationError::FileNotFound)
    } else {
        match loaded[0] {
            LoadedView::File { bytes: Some(b) } => file_meaning(b),
            _ => Err(RelationError::FileNotFound),
        }
    }
}

/// The index of the first column with the given name, if there is one.
pub open spec fn lookup(cols: Seq<ColumnSpec>, name: Seq<char>) -> Option<int> {
    if exists|i: int| named_at(cols, name, i) {
        Some(choose|i: int| named_at(cols, name, i))
    } else {
        None
    }
}

/// The first column with a name is one column.
pub proof fn lemma_lookup(cols: Seq<ColumnSpec>, name: Seq<char>, i: int)
    requires
        named_at(cols, name, i),
    ensures
        lookup(cols, name) == Some(i),
{
    let j = choose|j: int| named_at(cols, name, j);
    if j < i {
        assert(cols[j].name != name);
    }
    if i < j {
        assert(cols[i].name != name);
    }
}

/// No column has the name.
pub proof fn lemma_lookup_none(cols: Seq<ColumnSpec>, name: Seq<char>)
    requires
        unnamed(cols, name),
    ensures
        lookup(cols, name) is None,
{
    if exists|i: int| named_at(cols, name, i) {
        let i = choose|i: int| named_at(cols, name, i);
        assert(cols[i].name != name);
    }
}

/// Whether each of the names is the name of a column.
pub open spec fn all_named(cols: Seq<ColumnSpec>, names: Seq<Seq<char>>) -> bool {
    forall|j: int| 0 <= j < names.len() ==> lookup(cols, #[trigger] names[j]) is Some
}

/// For each of the names, the index of the first column that has it.
pub open spec fn lookups(cols: Seq<ColumnSpec>, names: Seq<Seq<char>>) -> Seq<usize> {
    Seq::new(names.len(), |j: int| lookup(cols, names[j]).unwrap() as usize)
}

/// The members of a union so far: the columns of the first of them, and
/// the rows of all of them.
pub struct UnionState {
    pub first: Option<Seq<ColumnSpec>>,
    pub rows: Seq<Seq<Cell>>,
}

/// The union with one more member, or nothing where the member differs
/// from the first member in the number of its columns, or in the name or
/// the type of one.
pub open spec fn joined(st: UnionState, m: Meaning) -> Option<UnionState> {
    match st.first {
        None => Some(UnionState { first: Some(m.columns), rows: m.rows }),
        Some(c) => if same_shape(c, m.columns) {
            Some(UnionState { first: st.first, rows: st.rows + m.rows })
        } else {
            None
        },
    }
}

/// The union with the files from the index `from` on as further members.
/// A file that cannot be opened, or that differs in its columns from the
/// first member, fails the union.
pub open spec fn files_joined(found: Seq<Seq<u8>>, from: nat, st: UnionState) -> Result<
    UnionState,
    RelationError,
>
    decreases found.len() - from,
{
    if from >= found.len() {
        Ok(st)
    } else {
        match file_meaning(found[from as int]) {
            Err(e) => Err(e),
            Ok(m) => match joined(st, m) {
                None => Err(RelationError::SchemaMismatchInUnion),
                Some(next) => files_joined(found, from + 1, next),
            },
        }
    }
}

/// What is left of a list behind its first `n` items.
pub open spec fn after<T>(s: Seq<T>, n: nat) -> Seq<T> {
    if n <= s.len() {
        s.skip(n as int)
    } else {
        Seq::empty()
    }
}

/// What joining a member to a union yields: the union, and what is left of
/// what was fetched.
pub struct Joined {
    pub state: Result<UnionState, RelationError>,
    pub left: Seq<LoadedView>,
}

/// The union with one more member of the plan. A file by its path, and
/// another relation, are left out where they differ in their columns from
/// the first member; a relation without columns is left out as well. A
/// file that a pattern matched fails the union where it differs.
pub open spec fn member_joined(member: MemberView, loaded: Seq<LoadedView>, st: UnionState) -> Joined
    decreases member,
{
    match member {
        MemberView::Path { path } => Joined {
            state: match opened(loaded) {
                Err(e) => Err(e),
                Ok(m) => match joined(st, m) {
                    Some(next) => Ok(next),
                    None => Ok(st),
                },
            },
            left: after(loaded, 1),
        },
        MemberView::Pattern { dir, regex } => Joined {
            state: if loaded.len() == 0 {
                Err(RelationError::FileNotFound)
            } else {
                match loaded[0] {
                    LoadedView::Files { found: Some(found) } => files_joined(found, 0, st),
                    _ => Err(RelationError::FileNotFound),
                }
            },
            left: after(loaded, 1),
        },
        MemberView::Named { plan } => Joined {
            state: match denote(plan, loaded) {
                Err(e) => Err(e),
                Ok(m) => if !m.described {
                    Ok(st)
                } else {
                    match joined(st, m) {
                        Some(next) => Ok(next),
                        None => Ok(st),
                    }
                },
            },
            left: after(loaded, leaves(plan).len()),
        },
    }
}

/// The union with the members of the plan from the index `from` on.
pub open spec fn members_joined(
    members: Seq<MemberView>,
    from: nat,
    loaded: Seq<LoadedView>,
    st: UnionState,
) -> Result<UnionState, RelationError>
    decreases members, members.len() - from,
{
    if from >= members.len() {
        Ok(st)
    } else {
        let j = member_joined(members[from as int], loaded, st);
        match j.state {
            Err(e) => Err(e),
            Ok(next) => members_joined(members, from + 1, j.left, next),
        }
    }
}

/// The relation that a plan stands for, given what was fetched for its
/// leaves, in their order.
pub open spec fn denote(plan: PlanView, loaded: Seq<LoadedView>) -> Result<Meaning, RelationError>
    decreases plan,
{
    match plan {
        PlanView::File { path } => opened(loaded),
        PlanView::Union { members } => match members_joined(
            members,
            0,
            loaded,
            UnionState { first: None, rows: Seq::empty() },
        ) {
            Err(e) => Err(e),
            Ok(st) => Ok(
                Meaning {
                    described: st.first is Some,
                    columns: match st.first {
                        Some(c) => c,
                        None => Seq::empty(),
                    },
                    rows: st.rows,
                },
            ),
        },
        PlanView::Projection { base, columns } => match denote(*base, loaded) {
            Err(e) => Err(e),
            Ok(m) => if !m.described || !all_named(m.columns, columns) {
                Err(RelationError::UnresolvedName)
            } else {
                Ok(
                    Meaning {
                        described: true,
                        columns: project_columns(m.columns, lookups(m.columns, columns)),
                        rows: project_rows(m.rows, lookups(m.columns, columns)),
                    },
                )
            },
        },
        PlanView::Unique { base, columns } => match denote(*base, loaded) {
            Err(e) => Err(e),
            Ok(m) => if !m.described || !all_named(m.columns, columns) {
                Err(RelationError::UnresolvedName)
            } else {
                Ok(
                    Meaning {
                        described: true,
                        columns: m.columns,
                        rows: unique_rows(
                            m.rows,
                            lookups(m.columns, columns),
                            Set::empty(),
                            TABLE_SLOTS as nat,
                        ),
                    },
                )
            },
        },
    }
}

/// The rows of a union with one more member are the rows of the union
/// followed by the rows of the member.
pub proof fn lemma_concat_rows_push(ms: Seq<AnyRelation>, r: AnyRelation, from: nat)
    requires
        from <= ms.len(),
    ensures
        concat_rows(ms.push(r), from) == concat_rows(ms, from) + r.rows(),
    decreases ms.len() - from,
{
    let next = ms.push(r);
    if from < ms.len() {
        lemma_concat_rows_push(ms, r, from + 1);
        assert(next[from as int] == ms[from as int]);
        assert(ms[from as int].rows() + (concat_rows(ms, from + 1) + r.rows()) =~= (
        ms[from as int].rows() + concat_rows(ms, from + 1)) + r.rows());
    } else {
        assert(concat_rows(next, from + 1) =~= Seq::<Seq<Cell>>::empty());
        assert(r.rows() + Seq::<Seq<Cell>>::empty() =~= r.rows());
        assert(Seq::<Seq<Cell>>::empty() + r.rows() =~= r.rows());
    }
}

/// The members of a union that has not been read from, as a state.
pub open spec fn state_of(co: ConcatRelation) -> UnionState {
    UnionState {
        first: if co.members().len() == 0 {
            None
        } else {
            Some(co.members()[0].columns())
        },
        rows: concat_rows(co.members(), 0),
    }
}

/// The meaning of a relation.
pub open spec fn meaning_of(rel: AnyRelation) -> Meaning {
    Meaning { described: rel.described(), columns: rel.columns(), rows: rel.rows() }
}

/// Takes the next of what was fetched.
pub fn take_next(loaded: &mut Vec<Loaded>) -> (r: Option<Loaded>)
    ensures
        loaded_views(final(loaded)@) == after(loaded_views(old(loaded)@), 1),
        match r {
            Some(l) => old(loaded)@.len() > 0 && l@ == loaded_views(old(loaded)@)[0],
            None => old(loaded)@.len() == 0,
        },
{
    if loaded.len() == 0 {
        assert(loaded_views(loaded@) =~= after(loaded_views(old(loaded)@), 1));
        None
    } else {
        let l = loaded.remove(0);
        assert(loaded_views(loaded@) =~= after(loaded_views(old(loaded)@), 1));
        Some(l)
    }
}

/// Opens the mapped bytes of a file as a relation.
pub fn open_map(m: Mmap, path: &str) -> (r: Result<AnyRelation, RelationError>)
    ensures
        match file_meaning(mapped(m)) {
            Ok(meaning) => r matches Ok(rel) && means(rel, meaning),
            Err(e) => r matches Err(x) && x == e,
        },
{
    match FileRelation::new(m, path) {
        Ok(f) => Ok(AnyRelation::File(f)),
        Err(e) => Err(RelationError::Open(e)),
    }
}

/// Opens what was fetched for the path of a file as a relation.
pub fn open_next(loaded: &mut Vec<Loaded>, path: &str) -> (r: Result<AnyRelation, RelationError>)
    ensures
        loaded_views(final(loaded)@) == after(loaded_views(old(loaded)@), 1),
        match opened(loaded_views(old(loaded)@)) {
            Ok(meaning) => r matches Ok(rel) && means(rel, meaning),
            Err(e) => r matches Err(x) && x == e,
        },
{
    match take_next(loaded) {
        Some(Loaded::File { map: Some(m) }) => open_map(m, path),
        _ => Err(RelationError::FileNotFound),
    }
}

/// Joins a relation to a union that has not been read from. Returns
/// whether it was taken.
pub fn try_add(co: &mut ConcatRelation, rel: AnyRelation) -> (ok: bool)
    requires
        old(co).inv(),
        old(co).cursor() == 0,
        rel.inv(),
        rel.described(),
    ensures
        final(co).inv(),
        final(co).cursor() == 0,
        match joined(state_of(*old(co)), meaning_of(rel)) {
            Some(next) => ok && state_of(*final(co)) == next,
            None => !ok && state_of(*final(co)) == state_of(*old(co)),
        },
{
    proof {
        lemma_concat_rows_push(co.members(), rel, 0);
        if co.members().len() == 0 {
            assert(concat_rows(co.members(), 0) =~= Seq::<Seq<Cell>>::empty());
            assert(Seq::<Seq<Cell>>::empty() + rel.rows() =~= rel.rows());
        }
    }
    co.add(Box::new(rel))
}

/// Joins the files that a pattern matched to a union. A file that cannot
/// be opened, or that differs in its columns from the first member, fails
/// the union.
#[verifier::rlimit(40)]
pub fn join_files(co: &mut ConcatRelation, files: Vec<(String, Mmap)>) -> (r: Result<
    (),
    RelationError,
>)
    requires
        old(co).inv(),
        old(co).cursor() == 0,
    ensures
        match files_joined(found_bytes(files@), 0, state_of(*old(co))) {
            Ok(next) => r is Ok && final(co).inv() && final(co).cursor() == 0 && state_of(
                *final(co),
            ) == next,
            Err(e) => r matches Err(x) && x == e,
        },
{
    let mut found = files;
    let ghost all = found_bytes(found@);
    let ghost goal = files_joined(all, 0, state_of(*co));
    let ghost mut k: nat = 0;
    assert(found_bytes(found@) =~= all.skip(0));
    while found.len() > 0
        invariant
            co.inv(),
            co.cursor() == 0,
            k <= all.len(),
            goal == files_joined(all, 0, state_of(*old(co))),
            all == found_bytes(files@),
            found_bytes(found@) == all.skip(k as int),
            files_joined(all, k, state_of(*co)) == goal,
        decreases found@.len(),
    {
        let ghost before = found@;
        proof {
            assert(found_bytes(before).len() == before.len());
            assert(all.skip(k as int).len() == all.len() - k);
        }
        let (name, m) = found.remove(0);
        proof {
            assert(found@ == before.remove(0));
            assert(found_bytes(before)[0] == all.skip(k as int)[0]);
            assert(mapped(m) == all[k as int]);
            assert forall|i: int| 0 <= i < found@.len() implies found_bytes(found@)[i] == all.skip(
                (k + 1) as int,
            )[i] by {
                assert(found@[i] == before[i + 1]);
                assert(found_bytes(before)[i + 1] == all.skip(k as int)[i + 1]);
            }
            assert(found_bytes(found@) =~= all.skip((k + 1) as int));
        }
        let ghost st = state_of(*co);
        assert(files_joined(all, k, st) == goal);
        let rel = match open_map(m, name.as_str()) {
            Ok(rel) => rel,
            Err(e) => {
                return Err(e);
            },
        };
        assert(meaning_of(rel) == file_meaning(all[k as int])->Ok_0);
        if !try_add(co, rel) {
            return Err(RelationError::SchemaMismatchInUnion);
        }
        proof {
            assert(files_joined(all, k + 1, state_of(*co)) == goal);
            k = k + 1;
        }
    }
    proof {
        assert(found_bytes(found@).len() == 0);
    }
    Ok(())
}

/// Joins a member of a plan to a union.
#[verifier::rlimit(40)]
pub fn join_member(co: &mut ConcatRelation, member: &Member, loaded: &mut Vec<Loaded>) -> (r: Result<
    (),
    RelationError,
>)
    requires
        old(co).inv(),
        old(co).cursor() == 0,
    ensures
        match member_joined(member.view(), loaded_views(old(loaded)@), state_of(*old(co))).state {
            Ok(next) => r is Ok && final(co).inv() && final(co).cursor() == 0 && state_of(
                *final(co),
            ) == next && loaded_views(final(loaded)@) == member_joined(
                member.view(),
                loaded_views(old(loaded)@),
                state_of(*old(co)),
            ).left,
            Err(e) => r matches Err(x) && x == e,
        },
    decreases member,
{
    match member {
        Member::Path { path } => {
            let rel = match open_next(loaded, path.as_str()) {
                Ok(rel) => rel,
                Err(e) => {
                    return Err(e);
                },
            };
            try_add(co, rel);
            Ok(())
        },
        Member::Pattern { dir, regex } => {
            match take_next(loaded) {
                Some(Loaded::Files { found: Some(found) }) => join_files(co, found),
                _ => Err(RelationError::FileNotFound),
            }
        },
        Member::Named { plan } => {
            let rel = match build(plan, loaded) {
                Ok(rel) => rel,
                Err(e) => {
                    return Err(e);
                },
            };
            if rel.is_described() {
                try_add(co, rel);
            }
            Ok(())
        },
    }
}

/// Makes the union of the members of a plan.
#[verifier::rlimit(40)]
pub fn build_union(members: &Vec<Member>, loaded: &mut Vec<Loaded>) -> (r: Result<
    ConcatRelation,
    RelationError,
>)
    ensures
        match members_joined(
            crate::plan::member_views(members@),
            0,
            loaded_views(old(loaded)@),
            UnionState { first: None, rows: Seq::empty() },
        ) {
            Ok(st) => r matches Ok(co) && co.inv() && co.cursor() == 0 && state_of(co) == st
                && loaded_views(final(loaded)@) == after(
                loaded_views(old(loaded)@),
                member_leaves(crate::plan::member_views(members@), members@.len()).len(),
            ),
            Err(e) => r matches Err(x) && x == e,
        },
    decreases members,
{
    let ghost views = crate::plan::member_views(members@);
    let ghost start = loaded_views(loaded@);
    let ghost goal = members_joined(views, 0, start, UnionState { first: None, rows: Seq::empty() });
    let mut co = ConcatRelation::new();
    let mut i: usize = 0;
    proof {
        assert(concat_rows(co.members(), 0) =~= Seq::<Seq<Cell>>::empty());
        assert(after(start, 0) =~= start);
    }
    while i < members.len()
        invariant
            i <= members@.len(),
            views == crate::plan::member_views(members@),
            start == loaded_views(old(loaded)@),
            goal == members_joined(
                views,
                0,
                start,
                UnionState { first: None, rows: Seq::empty() },
            ),
            co.inv(),
            co.cursor() == 0,
            members_joined(views, i as nat, loaded_views(loaded@), state_of(co)) == goal,
            goal is Ok ==> loaded_views(loaded@) == after(start, member_leaves(views, i as nat).len()),
        decreases members@.len() - i,
    {
        let ghost here = loaded_views(loaded@);
        let ghost st = state_of(co);
        assert(views[i as int] == members@[i as int].view());
        assert(decreases_to!(*members => members[i as int]));
        assert(members_joined(views, i as nat, here, st) == goal);
        match join_member(&mut co, &members[i], loaded) {
            Err(e) => {
                assert(member_joined(views[i as int], here, st).state == Err::<
                    UnionState,
                    RelationError,
                >(e));
                return Err(e);
            },
            Ok(()) => {},
        }
        proof {
            lemma_step_length(views[i as int], here, st);
            lemma_after_after(
                start,
                member_leaves(views, i as nat).len(),
                member_step(views[i as int]).len(),
            );
        }
        i += 1;
    }
    Ok(co)
}

/// Leaving out `a` items and then `b` items leaves out `a + b` items.
pub proof fn lemma_after_after<T>(s: Seq<T>, a: nat, b: nat)
    ensures
        after(after(s, a), b) == after(s, a + b),
{
    assert(after(after(s, a), b) =~= after(s, a + b));
}

/// Joining a member uses up what was fetched for its leaves.
pub proof fn lemma_step_length(member: MemberView, loaded: Seq<LoadedView>, st: UnionState)
    ensures
        member_joined(member, loaded, st).left == after(loaded, member_step(member).len()),
{
}

/// Makes the relation that a plan stands for from what was fetched for its
/// leaves, in their order.
#[verifier::rlimit(40)]
pub fn build(plan: &Plan, loaded: &mut Vec<Loaded>) -> (r: Result<AnyRelation, RelationError>)
    ensures
        match denote(plan.view(), loaded_views(old(loaded)@)) {
            Ok(m) => r matches Ok(rel) && means(rel, m) && loaded_views(final(loaded)@) == after(
                loaded_views(old(loaded)@),
                leaves(plan.view()).len(),
            ),
            Err(e) => r matches Err(x) && x == e,
        },
    decreases plan,
{
    match plan {
        Plan::File { path } => open_next(loaded, path.as_str()),
        Plan::Union { members } => {
            assert(decreases_to!(*plan => plan->members));
            match build_union(members, loaded) {
                Ok(co) => Ok(AnyRelation::Concat(co)),
                Err(e) => Err(e),
            }
        },
        Plan::Projection { base, columns } => {
            let rel = match build(base, loaded) {
                Ok(rel) => rel,
                Err(e) => {
                    return Err(e);
                },
            };
            if !rel.is_described() {
                return Err(RelationError::UnresolvedName);
            }
            let ghost cols = rel.columns();
            let ghost rows = rel.rows();
            let names = crate::plan::copy_strings(columns);
            match Projection::new(Box::new(rel), names) {
                Some(p) => {
                    proof {
                        assert(texts(names@).len() == names@.len());
                        assert forall|j: int| 0 <= j < texts(columns@).len() implies named_at(
                            cols,
                            #[trigger] texts(columns@)[j],
                            p.map()[j] as int,
                        ) by {
                            assert(texts(names@)[j] == names@[j]@);
                        }
                        lemma_all_named(cols, texts(columns@), p.map());
                    }
                    Ok(AnyRelation::Projection(p))
                },
                None => {
                    proof {
                        let j = choose|j: int|
                            0 <= j < names@.len() && unnamed(cols, (#[trigger] names@[j])@);
                        assert(texts(names@)[j] == names@[j]@);
                        assert(texts(columns@).len() == columns@.len());
                        assert(texts(names@).len() == names@.len());
                        assert(unnamed(cols, texts(columns@)[j]));
                        lemma_not_all_named(cols, texts(columns@));
                    }
                    Err(RelationError::UnresolvedName)
                },
            }
        },
        Plan::Unique { base, columns } => {
            let rel = match build(base, loaded) {
                Ok(rel) => rel,
                Err(e) => {
                    return Err(e);
                },
            };
            if !rel.is_described() {
                return Err(RelationError::UnresolvedName);
            }
            let ghost cols = rel.columns();
            let names = crate::plan::copy_strings(columns);
            match UniqueRelation::new(Box::new(rel), names) {
                Some(u) => {
                    proof {
                        assert(texts(names@).len() == names@.len());
                        assert forall|j: int| 0 <= j < texts(columns@).len() implies named_at(
                            cols,
                            #[trigger] texts(columns@)[j],
                            u.keys()[j] as int,
                        ) by {
                            assert(texts(names@)[j] == names@[j]@);
                        }
                        lemma_all_named(cols, texts(columns@), u.keys());
                    }
                    Ok(AnyRelation::Unique(u))
                },
                None => {
                    proof {
                        let j = choose|j: int|
                            0 <= j < names@.len() && unnamed(cols, (#[trigger] names@[j])@);
                        assert(texts(names@)[j] == names@[j]@);
                        assert(texts(columns@).len() == columns@.len());
                        assert(texts(names@).len() == names@.len());
                        assert(unnamed(cols, texts(columns@)[j]));
                        lemma_not_all_named(cols, texts(columns@));
                    }
                    Err(RelationError::UnresolvedName)
                },
            }
        },
    }
}

/// Where each name was found at its first column, all names are names of
/// columns, and the columns found are the ones looked up.
pub proof fn lemma_all_named(cols: Seq<ColumnSpec>, names: Seq<Seq<char>>, map: Seq<usize>)
    requires
        map.len() == names.len(),
        forall|j: int| 0 <= j < names.len() ==> named_at(cols, #[trigger] names[j], map[j] as int),
    ensures
        all_named(cols, names),
        lookups(cols, names) == map,
{
    assert forall|j: int| 0 <= j < names.len() implies lookup(cols, #[trigger] names[j]) == Some(
        map[j] as int,
    ) by {
        lemma_lookup(cols, names[j], map[j] as int);
    }
    assert(lookups(cols, names) =~= map);
}

/// Where one name is the name of no column, not all names are names of
/// columns.
pub proof fn lemma_not_all_named(cols: Seq<ColumnSpec>, names: Seq<Seq<char>>)
    requires
        exists|j: int| 0 <= j < names.len() && unnamed(cols, #[trigger] names[j]),
    ensures
        !all_named(cols, names),
{
    let j = choose|j: int| 0 <= j < names.len() && unnamed(cols, #[trigger] names[j]);
    lemma_lookup_none(cols, names[j]);
}

/// The plan of a named relation of a text of statements.
pub open spec fn plan_of_text(name: Seq<char>, text: Seq<u8>) -> Result<PlanView, RelationError> {
    match parse_text(text) {
        None => Err(RelationError::ParseError),
        Some(stmts) => plan_of(stmts, name, stmts.len()),
    }
}

/// Reads a text of statements and plans the relation with the given name.
/// The plan says what has to be fetched before the relation can be made.
pub fn plan_named(name: &str, rel: &str) -> (r: Result<Plan, RelationError>)
    ensures
        match r {
            Ok(p) => plan_of_text(name@, vstd::utf8::encode_utf8(rel@)) == Ok::<PlanView, RelationError>(
                p.view(),
            ),
            Err(e) => plan_of_text(name@, vstd::utf8::encode_utf8(rel@)) == Err::<PlanView, RelationError>(
                e,
            ),
        },
{
    let rels = match parse_relalgs(rel.as_bytes()) {
        Some(rels) => rels,
        None => {
            return Err(RelationError::ParseError);
        },
    };
    plan_relation(name, &rels, rels.len())
}

/// Makes the relation with the given name of a text of statements, from
/// what was fetched for the leaves of its plan, in their order.
pub fn create_relation(name: &str, rel: &str, loaded: Vec<Loaded>) -> (r: Result<
    AnyRelation,
    RelationError,
>)
    ensures
        match plan_of_text(name@, vstd::utf8::encode_utf8(rel@)) {
            Err(e) => r matches Err(x) && x == e,
            Ok(plan) => match denote(plan, loaded_views(loaded@)) {
                Ok(m) => r matches Ok(made) && means(made, m),
                Err(e) => r matches Err(x) && x == e,
            },
        },
{
    let plan = match plan_named(name, rel) {
        Ok(plan) => plan,
        Err(e) => {
            return Err(e);
        },
    };
    let mut loaded = loaded;
    build(&plan, &mut loaded)
}

} // verus!
