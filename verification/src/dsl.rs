use vstd::prelude::*;
use vstd::utf8::encode_utf8;
use crate::schema2::str_eq;
use crate::token::{
    lemma_skip_end_bounds, lemma_token_end_bounds, lossy_utf8, skip_end, token_end, Tokenizer, CR,
    LF, SPACE, TAB,
};

verus! {

/// The texts of a list of strings.
pub open spec fn texts(v: Seq<String>) -> Seq<Seq<char>> {
    Seq::new(v.len(), |i: int| v[i]@)
}

/// What a statement says of the relation that it names.
pub enum ParamView {
    File { filename: Seq<char> },
    Union { relations: Seq<Seq<char>> },
    Projection { base: Seq<char>, columns: Seq<Seq<char>> },
    Unique { base: Seq<char>, columns: Seq<Seq<char>> },
    Restriction { base: Seq<char>, expr: Seq<char> },
}

/// What a statement says of the relation that it names.
#[derive(Debug)]
pub enum RelationParam {
    File { filename: String },
    Union { relations: Vec<String> },
    Projection { base: String, columns: Vec<String> },
    Unique { base: String, columns: Vec<String> },
    Restriction { base: String, expr: String },
}

impl View for RelationParam {
    type V = ParamView;

    open spec fn view(&self) -> ParamView {
        match self {
            RelationParam::File { filename } => ParamView::File { filename: filename@ },
            RelationParam::Union { relations } => ParamView::Union { relations: texts(relations@) },
            RelationParam::Projection { base, columns } => ParamView::Projection {
                base: base@,
                columns: texts(columns@),
            },
            RelationParam::Unique { base, columns } => ParamView::Unique {
                base: base@,
                columns: texts(columns@),
            },
            RelationParam::Restriction { base, expr } => ParamView::Restriction {
                base: base@,
                expr: expr@,
            },
        }
    }
}

/// A statement: a name and what is said of it.
pub struct Named {
    pub name: Seq<char>,
    pub param: ParamView,
}

/// The statements of a text, in order. A name may be defined more than
/// once; the last definition counts.
#[derive(Debug)]
pub struct Rels {
    namemap: Vec<(String, RelationParam)>,
}

impl View for Rels {
    type V = Seq<Named>;

    closed spec fn view(&self) -> Seq<Named> {
        Seq::new(
            self.namemap@.len(),
            |i: int| Named { name: self.namemap@[i].0@, param: self.namemap@[i].1@ },
        )
    }
}

/// The index of the definition of a name that counts, the last one, if the
/// name is defined.
pub open spec fn defined_at(stmts: Seq<Named>, name: Seq<char>) -> Option<int>
    decreases stmts.len(),
{
    if stmts.len() == 0 {
        None
    } else if stmts.last().name == name {
        Some(stmts.len() - 1)
    } else {
        defined_at(stmts.drop_last(), name)
    }
}

pub proof fn lemma_defined_at_bounds(stmts: Seq<Named>, name: Seq<char>)
    ensures
        defined_at(stmts, name) matches Some(i) ==> 0 <= i < stmts.len() && stmts[i].name == name,
    decreases stmts.len(),
{
    if stmts.len() > 0 && stmts.last().name != name {
        lemma_defined_at_bounds(stmts.drop_last(), name);
    }
}

impl Rels {
    pub fn new() -> (r: Rels)
        ensures
            r@ == Seq::<Named>::empty(),
    {
        let r = Rels { namemap: Vec::new() };
        assert(r@ =~= Seq::<Named>::empty());
        r
    }

    /// Appends a statement.
    pub fn add(&mut self, name: String, rel: RelationParam)
        ensures
            final(self)@ == old(self)@.push(Named { name: name@, param: rel@ }),
    {
        self.namemap.push((name, rel));
        assert(self@ =~= old(self)@.push(Named { name: name@, param: rel@ }));
    }

    /// The number of statements.
    pub fn len(&self) -> (n: usize)
        ensures
            n == self@.len(),
    {
        self.namemap.len()
    }

    /// What is said of a name, by the last statement that defines it.
    pub fn get(&self, name: &str) -> (r: Option<&RelationParam>)
        ensures
            match defined_at(self@, name@) {
                Some(i) => r is Some && r.unwrap()@ == self@[i].param,
                None => r is None,
            },
    {
        let mut i: usize = self.namemap.len();
        proof {
            assert(self@.take(i as int) =~= self@);
        }
        while i > 0
            invariant
                i <= self.namemap@.len(),
                defined_at(self@.take(i as int), name@) == defined_at(self@, name@),
            decreases i,
        {
            proof {
                assert(self@.take(i as int).drop_last() =~= self@.take(i - 1));
            }
            i -= 1;
            if str_eq(self.namemap[i].0.as_str(), name) {
                return Some(&self.namemap[i].1);
            }
        }
        None
    }
}

/// The text of the token between two positions.
pub open spec fn token_text(s: Seq<u8>, from: int, to: int) -> Seq<char> {
    lossy_utf8(s.subrange(from, to))
}

/// Whether the text goes on with the bytes of `word` at `pos`.
pub open spec fn goes_on_with(s: Seq<u8>, pos: int, word: Seq<char>) -> bool {
    pos + encode_utf8(word).len() <= s.len() && s.subrange(pos, pos + encode_utf8(word).len())
        == encode_utf8(word)
}

/// The arguments of a statement and the position behind them.
pub struct Args {
    pub list: Seq<Seq<char>>,
    pub next: int,
}

/// Reads the arguments of a statement from `pos` on, after the arguments
/// `acc`: tokens with spaces and tabs between them, up to the end of the
/// line or to where no token begins. The line's end is stepped over.
pub open spec fn parse_args(s: Seq<u8>, pos: int, acc: Seq<Seq<char>>) -> Args
    decreases s.len() - pos,
{
    if !(0 <= pos <= s.len()) {
        Args { list: acc, next: pos }
    } else {
        let p1 = skip_end(s, pos, SPACE, TAB, TAB, TAB);
        match token_end(s, p1) {
            None => Args { list: acc, next: p1 },
            Some(k) => {
                let acc2 = acc.push(token_text(s, p1, k));
                let p2 = skip_end(s, k, SPACE, TAB, TAB, TAB);
                let p3 = skip_end(s, p2, CR, LF, LF, LF);
                if p3 != p2 {
                    Args { list: acc2, next: p3 }
                } else {
                    proof {
                        lemma_skip_end_bounds(s, pos, SPACE, TAB, TAB, TAB);
                        lemma_token_end_bounds(s, p1);
                        lemma_skip_end_bounds(s, k, SPACE, TAB, TAB, TAB);
                    }
                    parse_args(s, p2, acc2)
                }
            },
        }
    }
}

/// What reading one statement yields.
pub enum Step {
    /// No statement begins here: the text is read.
    Stop,
    /// The statement is malformed.
    Fail,
    /// A statement, and the position behind it.
    Stmt { name: Seq<char>, param: ParamView, next: int },
}

/// The end of a statement that must end its line: the position behind the
/// line's end, or nothing where the text goes on in the line.
pub open spec fn line_end(s: Seq<u8>, pos: int) -> Option<int> {
    let p = skip_end(s, pos, CR, LF, LF, LF);
    if p == pos && pos < s.len() {
        None
    } else {
        Some(p)
    }
}

/// Reads the part of a statement that follows `name = op`, from `pos` on.
pub open spec fn parse_body(s: Seq<u8>, name: Seq<char>, op: Seq<char>, pos: int) -> Step {
    if op == "file"@ {
        let p = skip_end(s, pos, SPACE, TAB, TAB, TAB);
        match token_end(s, p) {
            None => Step::Fail,
            Some(k) => match line_end(s, k) {
                None => Step::Fail,
                Some(next) => Step::Stmt {
                    name,
                    param: ParamView::File { filename: token_text(s, p, k) },
                    next,
                },
            },
        }
    } else if op == "project"@ {
        let a = parse_args(s, pos, Seq::empty());
        if a.list.len() == 0 {
            Step::Fail
        } else {
            Step::Stmt {
                name,
                param: ParamView::Projection { base: a.list[0], columns: a.list.skip(1) },
                next: a.next,
            }
        }
    } else if op == "unique"@ {
        let a = parse_args(s, pos, Seq::empty());
        if a.list.len() == 0 {
            Step::Fail
        } else {
            Step::Stmt {
                name,
                param: ParamView::Unique { base: a.list[0], columns: a.list.skip(1) },
                next: a.next,
            }
        }
    } else if op == "union"@ {
        let a = parse_args(s, pos, Seq::empty());
        Step::Stmt { name, param: ParamView::Union { relations: a.list }, next: a.next }
    } else if op == "restrict"@ {
        let p = skip_end(s, pos, SPACE, TAB, TAB, TAB);
        match token_end(s, p) {
            None => Step::Fail,
            Some(k) => {
                let q = skip_end(s, k, SPACE, TAB, TAB, TAB);
                match token_end(s, q) {
                    None => Step::Fail,
                    Some(m) => match line_end(s, m) {
                        None => Step::Fail,
                        Some(next) => Step::Stmt {
                            name,
                            param: ParamView::Restriction {
                                base: token_text(s, p, k),
                                expr: token_text(s, q, m),
                            },
                            next,
                        },
                    },
                }
            },
        }
    } else {
        Step::Fail
    }
}

/// Reads one statement of the form `name = op args` from `pos` on.
pub open spec fn parse_statement(s: Seq<u8>, pos: int) -> Step {
    let p0 = skip_end(s, pos, SPACE, TAB, TAB, TAB);
    match token_end(s, p0) {
        None => Step::Stop,
        Some(k0) => {
            let p1 = skip_end(s, k0, SPACE, TAB, TAB, TAB);
            if !goes_on_with(s, p1, "="@) {
                Step::Fail
            } else {
                let p2 = skip_end(s, p1 + encode_utf8("="@).len(), SPACE, TAB, TAB, TAB);
                match token_end(s, p2) {
                    None => Step::Fail,
                    Some(k2) => parse_body(s, token_text(s, p0, k0), token_text(s, p2, k2), k2),
                }
            }
        },
    }
}

/// A statement ends behind the position where it begins.
pub proof fn lemma_statement_moves_on(s: Seq<u8>, pos: int)
    requires
        0 <= pos <= s.len(),
    ensures
        parse_statement(s, pos) matches Step::Stmt { next, .. } ==> pos < next <= s.len(),
{
    let p0 = skip_end(s, pos, SPACE, TAB, TAB, TAB);
    lemma_skip_end_bounds(s, pos, SPACE, TAB, TAB, TAB);
    lemma_token_end_bounds(s, p0);
    match token_end(s, p0) {
        None => {},
        Some(k0) => {
            let p1 = skip_end(s, k0, SPACE, TAB, TAB, TAB);
            lemma_skip_end_bounds(s, k0, SPACE, TAB, TAB, TAB);
            if goes_on_with(s, p1, "="@) {
                let q = p1 + encode_utf8("="@).len();
                let p2 = skip_end(s, q, SPACE, TAB, TAB, TAB);
                lemma_skip_end_bounds(s, q, SPACE, TAB, TAB, TAB);
                lemma_token_end_bounds(s, p2);
                match token_end(s, p2) {
                    None => {},
                    Some(k2) => {
                        lemma_body_moves_on(s, token_text(s, p0, k0), token_text(s, p2, k2), k2);
                    },
                }
            }
        },
    }
}

/// Reads statements from `pos` on, after the statements `acc`, up to where
/// no statement begins. One malformed statement fails them all.
pub open spec fn parse_statements(s: Seq<u8>, pos: int, acc: Seq<Named>) -> Option<Seq<Named>>
    decreases s.len() - pos,
{
    if !(0 <= pos <= s.len()) {
        None
    } else {
        match parse_statement(s, pos) {
            Step::Stop => Some(acc),
            Step::Fail => None,
            Step::Stmt { name, param, next } => {
                proof {
                    lemma_statement_moves_on(s, pos);
                }
                parse_statements(s, next, acc.push(Named { name, param }))
            },
        }
    }
}

/// The statements of a text. Whitespace and line ends before the first
/// statement are stepped over.
pub open spec fn parse_text(s: Seq<u8>) -> Option<Seq<Named>> {
    parse_statements(s, skip_end(s, 0, SPACE, TAB, CR, LF), Seq::empty())
}

/// What reading one statement yields.
pub enum Parsed {
    Stop,
    Fail,
    Stmt { name: String, param: RelationParam },
}

/// Whether a statement must end here: moves over the line's end, and says
/// whether there was one or the text is used up.
pub fn end_of_line(t: &mut Tokenizer) -> (ok: bool)
    requires
        old(t).wf(),
    ensures
        final(t).wf(),
        final(t).text() == old(t).text(),
        match line_end(old(t).text(), old(t).at()) {
            Some(next) => ok && final(t).at() == next,
            None => !ok && final(t).at() == old(t).at(),
        },
{
    let moved = t.skip_whitespace(CR, LF, LF, LF);
    moved || t.eos()
}

/// Reads the arguments of a statement.
pub fn read_args(t: &mut Tokenizer) -> (r: Vec<String>)
    requires
        old(t).wf(),
    ensures
        final(t).wf(),
        final(t).text() == old(t).text(),
        texts(r@) == parse_args(old(t).text(), old(t).at(), Seq::empty()).list,
        final(t).at() == parse_args(old(t).text(), old(t).at(), Seq::empty()).next,
{
    let mut args: Vec<String> = Vec::new();
    let ghost s = t.text();
    let ghost goal = parse_args(s, t.at(), Seq::empty());
    proof {
        assert(texts(args@) =~= Seq::<Seq<char>>::empty());
    }
    loop
        invariant_except_break
            parse_args(s, t.at(), texts(args@)) == goal,
        invariant
            t.wf(),
            t.text() == s,
        ensures
            texts(args@) == goal.list,
            t.at() == goal.next,
        decreases s.len() - t.at(),
    {
        let ghost pos = t.at();
        let ghost before = args@;
        t.skip_whitespace(SPACE, TAB, TAB, TAB);
        proof {
            lemma_skip_end_bounds(s, pos, SPACE, TAB, TAB, TAB);
            lemma_token_end_bounds(s, t.at());
        }
        match t.parse_token() {
            None => {
                break ;
            },
            Some(name) => {
                args.push(name);
                proof {
                    assert(texts(args@) =~= texts(before).push(name@));
                }
            },
        }
        let ghost k = t.at();
        t.skip_whitespace(SPACE, TAB, TAB, TAB);
        proof {
            lemma_skip_end_bounds(s, k, SPACE, TAB, TAB, TAB);
            lemma_skip_end_bounds(s, t.at(), CR, LF, LF, LF);
        }
        if t.skip_whitespace(CR, LF, LF, LF) {
            break ;
        }
    }
    args
}

/// Moves the first of the arguments out as the base, and leaves the others
/// as the columns.
pub fn split_base(args: Vec<String>) -> (r: Option<(String, Vec<String>)>)
    ensures
        match r {
            Some((base, columns)) => args@.len() > 0 && base@ == args@[0]@ && texts(columns@)
                == texts(args@).skip(1),
            None => args@.len() == 0,
        },
{
    let mut args = args;
    if args.len() == 0 {
        return None;
    }
    let ghost before = args@;
    let base = args.remove(0);
    proof {
        assert(texts(args@) =~= texts(before).skip(1));
    }
    Some((base, args))
}

/// Reads the part of a statement that follows `name = op`.
pub fn read_body(t: &mut Tokenizer, name: String, reltype: &str) -> (r: Parsed)
    requires
        old(t).wf(),
    ensures
        final(t).wf(),
        final(t).text() == old(t).text(),
        match parse_body(old(t).text(), name@, reltype@, old(t).at()) {
            Step::Stop => false,
            Step::Fail => r is Fail,
            Step::Stmt { name: n, param, next } => r matches Parsed::Stmt { name: m, param: p }
                && m@ == n && p@ == param && final(t).at() == next,
        },
{
    if str_eq(reltype, "file") {
        t.skip_whitespace(SPACE, TAB, TAB, TAB);
        let filename = match t.parse_token() {
            Some(f) => f,
            None => {
                return Parsed::Fail;
            },
        };
        if !end_of_line(t) {
            return Parsed::Fail;
        }
        Parsed::Stmt { name, param: RelationParam::File { filename } }
    } else if str_eq(reltype, "project") {
        match split_base(read_args(t)) {
            Some((base, columns)) => Parsed::Stmt {
                name,
                param: RelationParam::Projection { base, columns },
            },
            None => Parsed::Fail,
        }
    } else if str_eq(reltype, "unique") {
        match split_base(read_args(t)) {
            Some((base, columns)) => Parsed::Stmt {
                name,
                param: RelationParam::Unique { base, columns },
            },
            None => Parsed::Fail,
        }
    } else if str_eq(reltype, "union") {
        let relations = read_args(t);
        Parsed::Stmt { name, param: RelationParam::Union { relations } }
    } else if str_eq(reltype, "restrict") {
        t.skip_whitespace(SPACE, TAB, TAB, TAB);
        let base = match t.parse_token() {
            Some(b) => b,
            None => {
                return Parsed::Fail;
            },
        };
        t.skip_whitespace(SPACE, TAB, TAB, TAB);
        let expr = match t.parse_token() {
            Some(e) => e,
            None => {
                return Parsed::Fail;
            },
        };
        if !end_of_line(t) {
            return Parsed::Fail;
        }
        Parsed::Stmt { name, param: RelationParam::Restriction { base, expr } }
    } else {
        Parsed::Fail
    }
}

/// Reads one statement of the form `name = op args`.
pub fn read_statement(t: &mut Tokenizer) -> (r: Parsed)
    requires
        old(t).wf(),
    ensures
        final(t).wf(),
        final(t).text() == old(t).text(),
        match parse_statement(old(t).text(), old(t).at()) {
            Step::Stop => r is Stop,
            Step::Fail => r is Fail,
            Step::Stmt { name, param, next } => r matches Parsed::Stmt { name: m, param: p } && m@
                == name && p@ == param && final(t).at() == next && next > old(t).at(),
        },
{
    let ghost s = t.text();
    let ghost pos = t.at();
    t.skip_whitespace(SPACE, TAB, TAB, TAB);
    proof {
        lemma_skip_end_bounds(s, pos, SPACE, TAB, TAB, TAB);
        lemma_token_end_bounds(s, t.at());
    }
    let name = match t.parse_token() {
        Some(n) => n,
        None => {
            return Parsed::Stop;
        },
    };
    let ghost k0 = t.at();
    t.skip_whitespace(SPACE, TAB, TAB, TAB);
    if !t.expect("=") {
        return Parsed::Fail;
    }
    t.skip_whitespace(SPACE, TAB, TAB, TAB);
    let reltype = match t.parse_token() {
        Some(x) => x,
        None => {
            return Parsed::Fail;
        },
    };
    let ghost k2 = t.at();
    let r = read_body(t, name, reltype.as_str());
    proof {
        lemma_skip_end_bounds(s, k0, SPACE, TAB, TAB, TAB);
        assert(k2 > k0) by {
            let p1 = skip_end(s, k0, SPACE, TAB, TAB, TAB);
            let p2 = skip_end(s, p1 + encode_utf8("="@).len(), SPACE, TAB, TAB, TAB);
            lemma_skip_end_bounds(s, p1 + encode_utf8("="@).len(), SPACE, TAB, TAB, TAB);
            lemma_token_end_bounds(s, p2);
        }
        lemma_body_moves_on(s, name@, reltype@, k2);
    }
    r
}

/// The arguments of a statement end at or behind the position where they
/// begin.
pub proof fn lemma_args_move_on(s: Seq<u8>, pos: int, acc: Seq<Seq<char>>)
    requires
        0 <= pos <= s.len(),
    ensures
        pos <= parse_args(s, pos, acc).next <= s.len(),
    decreases s.len() - pos,
{
    let p1 = skip_end(s, pos, SPACE, TAB, TAB, TAB);
    lemma_skip_end_bounds(s, pos, SPACE, TAB, TAB, TAB);
    lemma_token_end_bounds(s, p1);
    match token_end(s, p1) {
        None => {},
        Some(k) => {
            let p2 = skip_end(s, k, SPACE, TAB, TAB, TAB);
            lemma_skip_end_bounds(s, k, SPACE, TAB, TAB, TAB);
            let p3 = skip_end(s, p2, CR, LF, LF, LF);
            lemma_skip_end_bounds(s, p2, CR, LF, LF, LF);
            if p3 == p2 {
                lemma_args_move_on(s, p2, acc.push(token_text(s, p1, k)));
            }
        },
    }
}

/// The body of a statement ends at or behind the position where it begins.
pub proof fn lemma_body_moves_on(s: Seq<u8>, name: Seq<char>, op: Seq<char>, pos: int)
    requires
        0 <= pos <= s.len(),
    ensures
        parse_body(s, name, op, pos) matches Step::Stmt { next, .. } ==> pos <= next <= s.len(),
{
    lemma_args_move_on(s, pos, Seq::empty());
    let p = skip_end(s, pos, SPACE, TAB, TAB, TAB);
    lemma_skip_end_bounds(s, pos, SPACE, TAB, TAB, TAB);
    lemma_token_end_bounds(s, p);
    match token_end(s, p) {
        None => {},
        Some(k) => {
            lemma_skip_end_bounds(s, k, CR, LF, LF, LF);
            let q = skip_end(s, k, SPACE, TAB, TAB, TAB);
            lemma_skip_end_bounds(s, k, SPACE, TAB, TAB, TAB);
            lemma_token_end_bounds(s, q);
            match token_end(s, q) {
                None => {},
                Some(m) => {
                    lemma_skip_end_bounds(s, m, CR, LF, LF, LF);
                },
            }
        },
    }
}

/// Reads the statements of a text: lines of the form `name = op args`,
/// where `op` is one of `file`, `union`, `project`, `unique` and
/// `restrict`. Reading ends where no statement begins. One malformed
/// statement fails the whole text.
pub fn parse_relalgs(s: &[u8]) -> (r: Option<Rels>)
    ensures
        match parse_text(s@) {
            Some(stmts) => r is Some && r.unwrap()@ == stmts,
            None => r is None,
        },
{
    let mut r = Rels::new();
    let mut t = Tokenizer::new(s);
    t.skip_whitespace(SPACE, TAB, CR, LF);
    loop
        invariant
            t.wf(),
            t.text() == s@,
            parse_statements(s@, t.at(), r@) == parse_text(s@),
        decreases s@.len() - t.at(),
    {
        match read_statement(&mut t) {
            Parsed::Stop => {
                return Some(r);
            },
            Parsed::Fail => {
                return None;
            },
            Parsed::Stmt { name, param } => {
                r.add(name, param);
            },
        }
    }
}

} // verus!
