use vstd::prelude::*;

use crate::defs::Queue;
use crate::defs::Token;
use crate::table::NameTable;

verus! {

/// One unit of compiled code. A definition body is translated one token to
/// one instruction; a reference to a user word becomes a `Call` that captures
/// the callee's indirection cell (and the name, for the diagnostic given when
/// the cell was never filled).
pub enum Instr {
    Push(i32),
    Add,
    Sub,
    Mul,
    Div,
    Mod,
    Pow,
    Less,
    If,
    Skip,
    Print,
    Quit,
    Swap,
    Rot,
    Pick,
    Drop,
    Call(usize, String),
}

impl Clone for Instr {
    fn clone(&self) -> (r: Self)
        ensures
            r == *self,
    {
        match self {
            Instr::Push(v) => Instr::Push(*v),
            Instr::Add => Instr::Add,
            Instr::Sub => Instr::Sub,
            Instr::Mul => Instr::Mul,
            Instr::Div => Instr::Div,
            Instr::Mod => Instr::Mod,
            Instr::Pow => Instr::Pow,
            Instr::Less => Instr::Less,
            Instr::If => Instr::If,
            Instr::Skip => Instr::Skip,
            Instr::Print => Instr::Print,
            Instr::Quit => Instr::Quit,
            Instr::Swap => Instr::Swap,
            Instr::Rot => Instr::Rot,
            Instr::Pick => Instr::Pick,
            Instr::Drop => Instr::Drop,
            Instr::Call(cell, name) => Instr::Call(*cell, name.clone()),
        }
    }
}

/// Every `Call` in a body refers to a cell below `n`.
pub open spec fn calls_within(body: Seq<Instr>, n: int) -> bool {
    forall|k: int| 0 <= k < body.len() ==> match #[trigger] body[k] {
        Instr::Call(c, _) => 0 <= c < n,
        _ => true,
    }
}

/// The two JIT tables: names bound to cells, and the cells' current contents
/// (`None` stands for the fallback that fails at call time).
pub open spec fn tables_wf(names: Map<Seq<char>, usize>, cells: Seq<Option<Seq<Instr>>>) -> bool {
    &&& forall|k: Seq<char>| names.contains_key(k) ==> #[trigger] names[k] < cells.len()
    &&& forall|c: int| 0 <= c < cells.len() && cells[c] is Some
        ==> calls_within(#[trigger] cells[c].unwrap(), cells.len() as int)
}

/// Reserving a name: a fresh cell holding the fallback, and the name bound
/// to it (rebinding the name if it was bound before).
pub open spec fn spec_reserve(
    names: Map<Seq<char>, usize>,
    cells: Seq<Option<Seq<Instr>>>,
    name: Seq<char>,
) -> (Map<Seq<char>, usize>, Seq<Option<Seq<Instr>>>) {
    (names.insert(name, cells.len() as usize), cells.push(None))
}

/// Filling a name with code: overwrite the bound cell's contents, reserving
/// a cell first if the name was never bound.
pub open spec fn spec_fill(
    names: Map<Seq<char>, usize>,
    cells: Seq<Option<Seq<Instr>>>,
    name: Seq<char>,
    code: Seq<Instr>,
) -> (Map<Seq<char>, usize>, Seq<Option<Seq<Instr>>>) {
    if names.contains_key(name) {
        (names, cells.update(names[name] as int, Some(code)))
    } else {
        (names.insert(name, cells.len() as usize), cells.push(Some(code)))
    }
}

pub open spec fn opt_code_view(c: Option<Vec<Instr>>) -> Option<Seq<Instr>> {
    match c {
        Some(v) => Some(v@),
        None => None,
    }
}

/// The JIT definition table: per-name indirection cells. A cell's index is
/// stable once allocated; its contents may be rewritten by `fill`. Emitted
/// calls capture the cell, not its contents, so forward references and
/// redefinition reach already-compiled callers.
pub struct DefsMap {
    names: NameTable<usize>,
    cells: Vec<Option<Vec<Instr>>>,
}

impl DefsMap {
    pub closed spec fn jnames(&self) -> Map<Seq<char>, usize> {
        self.names@
    }

    pub closed spec fn jcells(&self) -> Seq<Option<Seq<Instr>>> {
        self.cells@.map_values(|c: Option<Vec<Instr>>| opt_code_view(c))
    }

    pub closed spec fn wf(&self) -> bool {
        &&& self.names.wf()
        &&& tables_wf(self.jnames(), self.jcells())
    }

    pub proof fn wf_facts(&self)
        requires
            self.wf(),
        ensures
            tables_wf(self.jnames(), self.jcells()),
    {
    }

    pub fn new() -> (r: Self)
        ensures
            r.jnames() == Map::<Seq<char>, usize>::empty(),
            r.jcells() == Seq::<Option<Seq<Instr>>>::empty(),
            r.wf(),
    {
        let r = DefsMap { names: NameTable::new(), cells: Vec::new() };
        proof {
            assert(r.jcells() =~= Seq::<Option<Seq<Instr>>>::empty());
        }
        r
    }

    /// Allocate a fresh cell holding the fallback and bind the name to it.
    pub fn reserve(&mut self, name: String)
        requires
            old(self).wf(),
        ensures
            (final(self).jnames(), final(self).jcells()) == spec_reserve(
                old(self).jnames(),
                old(self).jcells(),
                name@,
            ),
            final(self).wf(),
    {
        let idx = self.cells.len();
        self.names.insert(name, idx);
        self.cells.push(None);
        proof {
            assert(self.jcells() =~= old(self).jcells().push(None));
            lemma_tables_wf_after_reserve(old(self).jnames(), old(self).jcells(), name@, idx);
        }
    }

    /// Write code into the name's cell, reserving a cell first if needed.
    pub fn fill(&mut self, name: &String, code: Vec<Instr>)
        requires
            old(self).wf(),
            calls_within(code@, old(self).jcells().len() as int),
        ensures
            (final(self).jnames(), final(self).jcells()) == spec_fill(
                old(self).jnames(),
                old(self).jcells(),
                name@,
                code@,
            ),
            final(self).wf(),
    {
        let ghost names0 = self.jnames();
        let ghost cells0 = self.jcells();
        match self.names.get(name) {
            Some(i) => {
                let idx = *i;
                let ghost codev = code@;
                self.cells.set(idx, Some(code));
                proof {
                    assert(self.jcells() =~= cells0.update(idx as int, Some(codev)));
                    lemma_tables_wf_after_update(names0, cells0, idx as int, codev);
                }
            },
            None => {
                let idx = self.cells.len();
                self.names.insert(name.clone(), idx);
                let ghost codev = code@;
                self.cells.push(Some(code));
                proof {
                    assert(self.jcells() =~= cells0.push(Some(codev)));
                    lemma_tables_wf_after_push(names0, cells0, name@, codev);
                }
            },
        }
    }

    /// The cell bound to a name that is known to be present.
    pub fn get_first(&self, name: &String) -> (r: usize)
        requires
            self.wf(),
            self.jnames().contains_key(name@),
        ensures
            r == self.jnames()[name@],
    {
        match self.names.get(name) {
            Some(i) => *i,
            None => vstd::pervasive::unreached(),
        }
    }

    /// The cell bound to a name, reserving one if the name is unbound.
    pub fn get_first_or_reserve(&mut self, name: String) -> (r: usize)
        requires
            old(self).wf(),
        ensures
            final(self).wf(),
            old(self).jnames().contains_key(name@) ==> r == old(self).jnames()[name@]
                && final(self).jnames() == old(self).jnames() && final(self).jcells() == old(
                self,
            ).jcells(),
            !old(self).jnames().contains_key(name@) ==> r == old(self).jcells().len()
                && (final(self).jnames(), final(self).jcells()) == spec_reserve(
                old(self).jnames(),
                old(self).jcells(),
                name@,
            ),
    {
        let found = match self.names.get(&name) {
            Some(i) => Some(*i),
            None => None,
        };
        match found {
            Some(i) => i,
            None => {
                let idx = self.cells.len();
                self.reserve(name);
                idx
            },
        }
    }

    /// The cell currently bound to a name, if any.
    pub fn get_second(&self, name: &String) -> (r: Option<usize>)
        requires
            self.wf(),
        ensures
            match r {
                Some(i) => self.jnames().contains_key(name@) && i == self.jnames()[name@],
                None => !self.jnames().contains_key(name@),
            },
    {
        match self.names.get(name) {
            Some(i) => Some(*i),
            None => None,
        }
    }

    pub fn cells_len(&self) -> (r: usize)
        ensures
            r == self.jcells().len(),
    {
        self.cells.len()
    }

    pub fn cell_is_filled(&self, c: usize) -> (r: bool)
        requires
            c < self.jcells().len(),
        ensures
            r == (self.jcells()[c as int] is Some),
    {
        match &self.cells[c] {
            Some(_) => true,
            None => false,
        }
    }

    pub fn cell_len(&self, c: usize) -> (r: usize)
        requires
            c < self.jcells().len(),
            self.jcells()[c as int] is Some,
        ensures
            r == self.jcells()[c as int].unwrap().len(),
    {
        match &self.cells[c] {
            Some(v) => v.len(),
            None => vstd::pervasive::unreached(),
        }
    }

    pub fn cell_instr(&self, c: usize, pc: usize) -> (r: Instr)
        requires
            c < self.jcells().len(),
            self.jcells()[c as int] is Some,
            pc < self.jcells()[c as int].unwrap().len(),
        ensures
            r == self.jcells()[c as int].unwrap()[pc as int],
    {
        match &self.cells[c] {
            Some(v) => v[pc].clone(),
            None => vstd::pervasive::unreached(),
        }
    }
}

proof fn lemma_tables_wf_after_reserve(
    names: Map<Seq<char>, usize>,
    cells: Seq<Option<Seq<Instr>>>,
    key: Seq<char>,
    idx: usize,
)
    requires
        tables_wf(names, cells),
        idx == cells.len(),
    ensures
        tables_wf(names.insert(key, idx), cells.push(None)),
{
    let names2 = names.insert(key, idx);
    let cells2 = cells.push(None);
    assert forall|c: int| 0 <= c < cells2.len() && cells2[c] is Some implies calls_within(
        #[trigger] cells2[c].unwrap(),
        cells2.len() as int,
    ) by {
        if c < cells.len() {
            assert(cells2[c] == cells[c]);
        }
    }
}

proof fn lemma_tables_wf_after_update(
    names: Map<Seq<char>, usize>,
    cells: Seq<Option<Seq<Instr>>>,
    idx: int,
    code: Seq<Instr>,
)
    requires
        tables_wf(names, cells),
        0 <= idx < cells.len(),
        calls_within(code, cells.len() as int),
    ensures
        tables_wf(names, cells.update(idx, Some(code))),
{
    let cells2 = cells.update(idx, Some(code));
    assert forall|c: int| 0 <= c < cells2.len() && cells2[c] is Some implies calls_within(
        #[trigger] cells2[c].unwrap(),
        cells2.len() as int,
    ) by {
        if c != idx {
            assert(cells2[c] == cells[c]);
        }
    }
}

proof fn lemma_tables_wf_after_push(
    names: Map<Seq<char>, usize>,
    cells: Seq<Option<Seq<Instr>>>,
    key: Seq<char>,
    code: Seq<Instr>,
)
    requires
        tables_wf(names, cells),
        calls_within(code, cells.len() as int),
    ensures
        tables_wf(
            names.insert(key, cells.len() as usize),
            cells.push(Some(code)),
        ),
{
    let cells2 = cells.push(Some(code));
    assert forall|c: int| 0 <= c < cells2.len() && cells2[c] is Some implies calls_within(
        #[trigger] cells2[c].unwrap(),
        cells2.len() as int,
    ) by {
        if c < cells.len() {
            assert(cells2[c] == cells[c]);
        }
    }
}


/// The outcome of translating a body: whether it compiled, the code, and the
/// JIT tables after the reservations the translation made.
pub ghost struct CompRes {
    pub ok: bool,
    pub code: Seq<Instr>,
    pub names: Map<Seq<char>, usize>,
    pub cells: Seq<Option<Seq<Instr>>>,
}

/// The tokens that compile to a single inline instruction.
pub open spec fn is_builtin_token(t: Token) -> bool {
    !(t is DefBegin || t is DefEnd || t is Custom)
}

pub open spec fn instr_of_builtin(t: Token) -> Instr {
    match t {
        Token::Num(v) => Instr::Push(v),
        Token::Add => Instr::Add,
        Token::Sub => Instr::Sub,
        Token::Mul => Instr::Mul,
        Token::Div => Instr::Div,
        Token::Mod => Instr::Mod,
        Token::Pow => Instr::Pow,
        Token::Less => Instr::Less,
        Token::If => Instr::If,
        Token::Skip => Instr::Skip,
        Token::Print => Instr::Print,
        Token::Quit => Instr::Quit,
        Token::Swap => Instr::Swap,
        Token::Rot => Instr::Rot,
        Token::Pick => Instr::Pick,
        Token::Drop => Instr::Drop,
        _ => arbitrary(),
    }
}

/// Translation of a body, token by token from the left. Definition delimiters
/// cannot be compiled; a reference to a user word captures the callee's cell,
/// reserving one on first sight. Once a token fails, the result is fixed.
pub open spec fn spec_compile(
    body: Seq<Token>,
    names: Map<Seq<char>, usize>,
    cells: Seq<Option<Seq<Instr>>>,
) -> CompRes
    decreases body.len(),
{
    if body.len() == 0 {
        CompRes { ok: true, code: Seq::empty(), names, cells }
    } else {
        let r = spec_compile(body.drop_last(), names, cells);
        if !r.ok {
            r
        } else {
            match body.last() {
                Token::DefBegin => CompRes { ok: false, ..r },
                Token::DefEnd => CompRes { ok: false, ..r },
                Token::Custom(n) => if r.names.contains_key(n@) {
                    CompRes { code: r.code.push(Instr::Call(r.names[n@], n)), ..r }
                } else {
                    CompRes {
                        ok: true,
                        code: r.code.push(Instr::Call(r.cells.len() as usize, n)),
                        names: r.names.insert(n@, r.cells.len() as usize),
                        cells: r.cells.push(None),
                    }
                },
                t => CompRes { code: r.code.push(instr_of_builtin(t)), ..r },
            }
        }
    }
}

/// Once some prefix of the body fails to compile, the whole body fails with
/// the same result.
pub proof fn lemma_spec_compile_fail_persists(
    body: Seq<Token>,
    names: Map<Seq<char>, usize>,
    cells: Seq<Option<Seq<Instr>>>,
    k: int,
)
    requires
        0 <= k <= body.len(),
        !spec_compile(body.take(k), names, cells).ok,
    ensures
        spec_compile(body, names, cells) == spec_compile(body.take(k), names, cells),
    decreases body.len() - k,
{
    if k < body.len() {
        assert(body.take(k + 1).drop_last() =~= body.take(k));
        lemma_spec_compile_fail_persists(body, names, cells, k + 1);
    } else {
        assert(body.take(k) =~= body);
    }
}

/// Translation only appends fresh fallback cells, never touches existing
/// ones, and the code it emits calls within the resulting table.
pub proof fn lemma_spec_compile_props(
    body: Seq<Token>,
    names: Map<Seq<char>, usize>,
    cells: Seq<Option<Seq<Instr>>>,
)
    requires
        tables_wf(names, cells),
    ensures
        ({
            let r = spec_compile(body, names, cells);
            &&& tables_wf(r.names, r.cells)
            &&& r.cells.len() >= cells.len()
            &&& forall|c: int| 0 <= c < cells.len() ==> r.cells[c] == cells[c]
            &&& calls_within(r.code, r.cells.len() as int)
        }),
    decreases body.len(),
{
    if body.len() > 0 {
        lemma_spec_compile_props(body.drop_last(), names, cells);
        let r = spec_compile(body.drop_last(), names, cells);
        let r2 = spec_compile(body, names, cells);
        if r.ok {
            match body.last() {
                Token::Custom(n) => {
                    if !r.names.contains_key(n@) {
                        assert forall|c: int| 0 <= c < r2.cells.len() && r2.cells[c] is Some
                            implies calls_within(#[trigger] r2.cells[c].unwrap(), r2.cells.len() as int) by {
                            assert(r2.cells[c] == r.cells[c]);
                        }
                    }
                },
                _ => {},
            }
        }
    }
}

impl Default for DefsMap {
    fn default() -> (r: Self)
        ensures
            r.wf(),
    {
        Self::new()
    }
}

/// Translation never fails over a name: a body free of definition
/// delimiters compiles even when the words it calls have no definition yet,
/// because an unknown callee only reserves a fallback cell.
pub proof fn lemma_compile_accepts_unknown(
    body: Seq<Token>,
    names: Map<Seq<char>, usize>,
    cells: Seq<Option<Seq<Instr>>>,
)
    requires
        forall|i: int|
            0 <= i < body.len() ==> !((#[trigger] body[i]) is DefBegin || body[i] is DefEnd),
    ensures
        spec_compile(body, names, cells).ok,
    decreases body.len(),
{
    if body.len() > 0 {
        lemma_compile_accepts_unknown(body.drop_last(), names, cells);
        assert(forall|i: int| 0 <= i < body.len() - 1 ==> body.drop_last()[i] == body[i]);
    }
}

/// The error of asking the code generator to compile a definition delimiter.
#[derive(Debug, PartialEq)]
pub enum CompileError {
    DefinitionToken,
}

/// Translate a definition body to code, reserving an indirection cell for
/// every user word the body mentions.
pub fn compile(queue: Queue<Token>, defs: &mut DefsMap) -> (r: Result<Vec<Instr>, CompileError>)
    requires
        old(defs).wf(),
    ensures
        final(defs).wf(),
        ({
            let cr = spec_compile(queue@, old(defs).jnames(), old(defs).jcells());
            &&& final(defs).jnames() == cr.names
            &&& final(defs).jcells() == cr.cells
            &&& match r {
                Ok(code) => cr.ok && code@ == cr.code,
                Err(_) => !cr.ok,
            }
        }),
{
    let ghost names0 = defs.jnames();
    let ghost cells0 = defs.jcells();
    let n = queue.len();
    let mut code: Vec<Instr> = Vec::new();
    let mut i: usize = 0;
    while i < n
        invariant
            defs.wf(),
            names0 == old(defs).jnames(),
            cells0 == old(defs).jcells(),
            n == queue@.len(),
            i <= n,
            ({
                let cr = spec_compile(queue@.take(i as int), names0, cells0);
                &&& cr.ok
                &&& code@ == cr.code
                &&& defs.jnames() == cr.names
                &&& defs.jcells() == cr.cells
            }),
        decreases n - i,
    {
        let ghost pre = spec_compile(queue@.take(i as int), names0, cells0);
        proof {
            assert(queue@.take(i + 1).drop_last() =~= queue@.take(i as int));
            assert(queue@.take(i + 1).last() == queue@[i as int]);
        }
        let t = queue.get(i);
        match t {
            Token::DefBegin | Token::DefEnd => {
                proof {
                    let cr1 = spec_compile(queue@.take(i + 1), names0, cells0);
                    assert(!cr1.ok && cr1.names == pre.names && cr1.cells == pre.cells);
                    lemma_spec_compile_fail_persists(queue@, names0, cells0, i + 1);
                }
                return Err(CompileError::DefinitionToken);
            },
            Token::Custom(name) => {
                let cell = defs.get_first_or_reserve(name.clone());
                code.push(Instr::Call(cell, name.clone()));
            },
            Token::Num(v) => code.push(Instr::Push(*v)),
            Token::Add => code.push(Instr::Add),
            Token::Sub => code.push(Instr::Sub),
            Token::Mul => code.push(Instr::Mul),
            Token::Div => code.push(Instr::Div),
            Token::Mod => code.push(Instr::Mod),
            Token::Pow => code.push(Instr::Pow),
            Token::Less => code.push(Instr::Less),
            Token::If => code.push(Instr::If),
            Token::Skip => code.push(Instr::Skip),
            Token::Print => code.push(Instr::Print),
            Token::Quit => code.push(Instr::Quit),
            Token::Swap => code.push(Instr::Swap),
            Token::Rot => code.push(Instr::Rot),
            Token::Pick => code.push(Instr::Pick),
            Token::Drop => code.push(Instr::Drop),
        }
        i = i + 1;
    }
    proof {
        assert(queue@.take(n as int) =~= queue@);
    }
    Ok(code)
}

} // verus!
