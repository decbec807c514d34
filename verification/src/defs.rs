use vstd::prelude::*;

verus! {

/// One program unit of the language: a literal, a built-in word, a
/// definition delimiter, or a reference to a user-defined word.
#[derive(Debug, PartialEq)]
pub enum Token {
    Num(i32),
    Add,
    Sub,
    Mul,
    Div,
    Mod,
    Pow,
    Less,
    DefBegin,
    DefEnd,
    If,
    Skip,
    Print,
    Quit,
    Swap,
    Rot,
    Pick,
    Drop,
    Custom(String),
}

impl Clone for Token {
    fn clone(&self) -> (r: Self)
        ensures
            r == *self,
    {
        match self {
            Token::Num(v) => Token::Num(*v),
            Token::Add => Token::Add,
            Token::Sub => Token::Sub,
            Token::Mul => Token::Mul,
            Token::Div => Token::Div,
            Token::Mod => Token::Mod,
            Token::Pow => Token::Pow,
            Token::Less => Token::Less,
            Token::DefBegin => Token::DefBegin,
            Token::DefEnd => Token::DefEnd,
            Token::If => Token::If,
            Token::Skip => Token::Skip,
            Token::Print => Token::Print,
            Token::Quit => Token::Quit,
            Token::Swap => Token::Swap,
            Token::Rot => Token::Rot,
            Token::Pick => Token::Pick,
            Token::Drop => Token::Drop,
            Token::Custom(name) => Token::Custom(name.clone()),
        }
    }
}

/// A LIFO stack; the value stack holds `i32`, the return stack holds queues.
pub struct Stack<T>(Vec<T>);

impl<T> View for Stack<T> {
    type V = Seq<T>;

    closed spec fn view(&self) -> Seq<T> {
        self.0@
    }
}

impl<T> Stack<T> {
    pub fn new() -> (r: Self)
        ensures
            r@ == Seq::<T>::empty(),
    {
        Stack(Vec::new())
    }

    pub fn push(&mut self, value: T)
        ensures
            final(self)@ == old(self)@.push(value),
    {
        self.0.push(value);
    }

    pub fn pop(&mut self) -> (r: Option<T>)
        ensures
            old(self)@.len() == 0 ==> r is None && final(self)@ == old(self)@,
            old(self)@.len() > 0 ==> r == Some(old(self)@.last()) && final(self)@ == old(self)@.drop_last(),
    {
        self.0.pop()
    }

    pub fn is_empty(&self) -> (r: bool)
        ensures
            r == (self@.len() == 0),
    {
        self.0.len() == 0
    }

    pub fn len(&self) -> (r: usize)
        ensures
            r == self@.len(),
    {
        self.0.len()
    }

    /// Pick the nth element from the top of the stack (0 is the top).
    pub fn pick(&self, n: usize) -> (r: Option<&T>)
        ensures
            n < self@.len() ==> r == Some(&self@[self@.len() - n - 1]),
            n >= self@.len() ==> r is None,
    {
        if n < self.0.len() {
            let i = self.0.len() - n - 1;
            Some(&self.0[i])
        } else {
            None
        }
    }
}

/// A FIFO queue of tokens: the instruction stream yet to execute.
pub struct Queue<T>(std::collections::VecDeque<T>);

impl<T> View for Queue<T> {
    type V = Seq<T>;

    closed spec fn view(&self) -> Seq<T> {
        self.0@
    }
}

impl<T> Queue<T> {
    pub fn new() -> (r: Self)
        ensures
            r@ == Seq::<T>::empty(),
    {
        Queue(std::collections::VecDeque::new())
    }

    pub fn push(&mut self, value: T)
        ensures
            final(self)@ == old(self)@.push(value),
    {
        self.0.push_back(value);
    }

    pub fn pop(&mut self) -> (r: Option<T>)
        ensures
            old(self)@.len() == 0 ==> r is None && final(self)@ == old(self)@,
            old(self)@.len() > 0 ==> r == Some(old(self)@[0]) && final(self)@ == old(self)@.skip(1),
    {
        let r = self.0.pop_front();
        proof {
            if old(self)@.len() > 0 {
                assert(self@ =~= old(self)@.skip(1));
            }
        }
        r
    }

    pub fn is_empty(&self) -> (r: bool)
        ensures
            r == (self@.len() == 0),
    {
        self.0.len() == 0
    }

    pub fn len(&self) -> (r: usize)
        ensures
            r == self@.len(),
    {
        self.0.len()
    }

    /// Read the element at `i` without consuming it.
    pub fn get(&self, i: usize) -> (r: &T)
        requires
            i < self@.len(),
        ensures
            *r == self@[i as int],
    {
        &self.0[i]
    }
}

/// The current token queue. `Real` is an owned FIFO that accepts pushes;
/// `Iter` is a cursor over a stored definition body; `Taken` exists only
/// transiently while ownership moves between queues.
pub enum TheQueue {
    Real(Queue<Token>),
    Iter(Vec<Token>, usize),
    Taken,
}

impl View for TheQueue {
    type V = Seq<Token>;

    /// The tokens that remain to be executed.
    open spec fn view(&self) -> Seq<Token> {
        match self {
            TheQueue::Real(q) => q@,
            TheQueue::Iter(body, pos) => body@.skip(*pos as int),
            TheQueue::Taken => Seq::empty(),
        }
    }
}

impl TheQueue {
    pub open spec fn wf(&self) -> bool {
        match self {
            TheQueue::Real(_) => true,
            TheQueue::Iter(body, pos) => *pos <= body@.len(),
            TheQueue::Taken => false,
        }
    }

    pub fn new() -> (r: Self)
        ensures
            r@ == Seq::<Token>::empty(),
            r is Real,
            r.wf(),
    {
        TheQueue::Real(Queue::new())
    }

    pub fn push(&mut self, value: Token)
        requires
            (*old(self)) is Real,
        ensures
            final(self)@ == old(self)@.push(value),
            (*final(self)) is Real,
            final(self).wf(),
    {
        match self {
            TheQueue::Real(queue) => queue.push(value),
            _ => vstd::pervasive::unreached(),
        }
    }

    pub fn pop(&mut self) -> (r: Option<Token>)
        requires
            old(self).wf(),
        ensures
            old(self)@.len() == 0 ==> r is None && final(self)@ == old(self)@,
            old(self)@.len() > 0 ==> r == Some(old(self)@[0]) && final(self)@ == old(self)@.skip(1),
            final(self).wf(),
            (*final(self)) is Real <==> (*old(self)) is Real,
    {
        match self {
            TheQueue::Real(queue) => queue.pop(),
            TheQueue::Iter(body, pos) => {
                if *pos < body.len() {
                    let t = body[*pos].clone();
                    let ghost prev = *pos as int;
                    *pos = *pos + 1;
                    proof {
                        assert(body@.skip(prev + 1) =~= body@.skip(prev).skip(1));
                    }
                    Some(t)
                } else {
                    None
                }
            },
            TheQueue::Taken => vstd::pervasive::unreached(),
        }
    }

    pub fn is_empty(&self) -> (r: bool)
        requires
            self.wf(),
        ensures
            r == (self@.len() == 0),
    {
        match self {
            TheQueue::Real(queue) => queue.is_empty(),
            TheQueue::Iter(body, pos) => body.len() - *pos == 0,
            TheQueue::Taken => vstd::pervasive::unreached(),
        }
    }

    /// Move the queue out, leaving the transient `Taken` in its place.
    pub fn take(&mut self) -> (r: TheQueue)
        ensures
            r == *old(self),
            (*final(self)) is Taken,
    {
        let mut out = TheQueue::Taken;
        core::mem::swap(self, &mut out);
        out
    }

    pub fn unwrap(self) -> (r: Queue<Token>)
        requires
            self is Real,
        ensures
            r@ == self@,
    {
        match self {
            TheQueue::Real(queue) => queue,
            _ => vstd::pervasive::unreached(),
        }
    }

    /// Install a cursor over a stored definition body as the current queue.
    pub fn become_iter(&mut self, queue: &Queue<Token>)
        ensures
            final(self)@ == queue@,
            final(self).wf(),
            !((*final(self)) is Real),
    {
        let mut body: Vec<Token> = Vec::new();
        let n = queue.len();
        let mut i: usize = 0;
        while i < n
            invariant
                n == queue@.len(),
                i <= n,
                body@ == queue@.take(i as int),
            decreases n - i,
        {
            body.push(queue.get(i).clone());
            proof {
                assert(queue@.take(i + 1) =~= queue@.take(i as int).push(queue@[i as int]));
            }
            i = i + 1;
        }
        proof {
            assert(queue@.take(n as int) =~= queue@);
        }
        *self = TheQueue::Iter(body, 0);
        proof {
            assert(body@.skip(0) =~= body@);
        }
    }
}

pub type TheStack = Stack<i32>;

pub type ReturnStack = Stack<TheQueue>;

} // verus!
