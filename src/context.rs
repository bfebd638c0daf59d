//! The code generation context: emitted text, labels, the string pool, and one
//! frame of scope and stack bookkeeping per function being lowered.
use vstd::prelude::*;
use vstd::string::StringExecFns;
use crate::text::{decimal, decimal_string};

verus! {

/// Bytes in one stack word.
pub const WORD: u64 = 8;

/// The largest stack size, in bytes, that a frame may reach.
pub const MAX_STACK: u64 = 0x4000_0000_0000_0000;

/// A resolved binding: its offset from the frame base (positive for locals,
/// negative for parameters).
#[derive(Debug, Clone, Copy, PartialEq, Eq, Structural)]
pub struct Variable {
    pub stack_position: i64,
}

/// A string literal of the program and the data label it is emitted under.
pub struct GlobalString {
    pub string: String,
    pub label: String,
}

/// The bindings of one lexical scope, newest last. A list rather than a hash
/// map: lookups search from the newest binding, and `add_var` refuses a name
/// already bound here, so within a scope each name is bound at most once by a
/// declaration (a parameter bound again replaces the earlier one by coming
/// later).
pub struct Scope {
    variables: Vec<(String, Variable)>,
    parent: usize,
    pub stack_size_at_creation: u64,
}

/// A scope as a list of (name, offset) bindings, newest last, and the stack
/// size when it was opened.
pub struct ScopeV {
    pub vars: Seq<(Seq<char>, i64)>,
    pub created: int,
}

/// Bookkeeping for one function's frame (or for the top level).
pub struct StackPointer {
    stack_size: u64,
    scopes: Vec<Scope>,
    current_scope: usize,
    pub loop_exit_labels: Vec<String>,
}

/// A frame: its stack size in bytes, its open scopes (innermost last), and the
/// exit labels of its enclosing loops (innermost last).
pub struct FrameV {
    pub stack_size: int,
    pub scopes: Seq<ScopeV>,
    pub loop_labels: Seq<Seq<char>>,
}

/// All state of one compilation's code generation.
pub struct ParsingContext {
    pub output: String,
    label_counter: u64,
    pub strings: Vec<GlobalString>,
    string_counter: u64,
    stack_pointers: Vec<StackPointer>,
    /// Declared function names; `add_function_name` keeps them distinct.
    function_names: Vec<String>,
}

/// The context as plain values.
pub struct CtxV {
    pub output: Seq<char>,
    pub labels: int,
    /// (label, contents) of each pooled string literal, in order.
    pub strings: Seq<(Seq<char>, Seq<char>)>,
    pub string_counter: int,
    pub frames: Seq<FrameV>,
    pub functions: Seq<Seq<char>>,
}

impl View for Scope {
    type V = ScopeV;

    closed spec fn view(&self) -> ScopeV {
        ScopeV {
            vars: self.variables@.map_values(|e: (String, Variable)| (e.0@, e.1.stack_position)),
            created: self.stack_size_at_creation as int,
        }
    }
}

impl View for StackPointer {
    type V = FrameV;

    closed spec fn view(&self) -> FrameV {
        FrameV {
            stack_size: self.stack_size as int,
            scopes: self.scopes@.map_values(|s: Scope| s@),
            loop_labels: self.loop_exit_labels@.map_values(|l: String| l@),
        }
    }
}

impl View for ParsingContext {
    type V = CtxV;

    closed spec fn view(&self) -> CtxV {
        CtxV {
            output: self.output@,
            labels: self.label_counter as int,
            strings: self.strings@.map_values(|g: GlobalString| (g.label@, g.string@)),
            string_counter: self.string_counter as int,
            frames: self.stack_pointers@.map_values(|p: StackPointer| p@),
            functions: self.function_names@.map_values(|n: String| n@),
        }
    }
}

/// The offset bound to `name` in one scope (its newest binding).
pub open spec fn scope_lookup(vars: Seq<(Seq<char>, i64)>, name: Seq<char>) -> Option<i64>
    decreases vars.len(),
{
    if vars.len() == 0 {
        None
    } else if vars.last().0 == name {
        Some(vars.last().1)
    } else {
        scope_lookup(vars.drop_last(), name)
    }
}

/// The offset bound to `name`, searching scopes from the innermost outward.
pub open spec fn frame_lookup(scopes: Seq<ScopeV>, name: Seq<char>) -> Option<i64>
    decreases scopes.len(),
{
    if scopes.len() == 0 {
        None
    } else {
        match scope_lookup(scopes.last().vars, name) {
            Some(o) => Some(o),
            None => frame_lookup(scopes.drop_last(), name),
        }
    }
}

/// `line` repeated `n` times.
pub open spec fn repeat(line: Seq<char>, n: nat) -> Seq<char>
    decreases n,
{
    if n == 0 { seq![] } else { repeat(line, (n - 1) as nat) + line }
}

/// The frame on top of the frame stack.
pub open spec fn top(c: CtxV) -> FrameV {
    c.frames.last()
}

/// `c` with its top frame replaced by `f`.
pub open spec fn with_top(c: CtxV, f: FrameV) -> CtxV {
    CtxV { frames: c.frames.update(c.frames.len() - 1, f), ..c }
}

/// `c` with `text` appended to the output.
pub open spec fn emit(c: CtxV, text: Seq<char>) -> CtxV {
    CtxV { output: c.output + text, ..c }
}

/// A frame with the stack size changed.
pub open spec fn with_stack(f: FrameV, n: int) -> FrameV {
    FrameV { stack_size: n, ..f }
}

/// A frame with a fresh innermost scope opened at the current stack size.
pub open spec fn open_scope(f: FrameV) -> FrameV {
    FrameV { scopes: f.scopes.push(ScopeV { vars: seq![], created: f.stack_size }), ..f }
}

/// A frame with `name` bound to `offset` in its innermost scope.
pub open spec fn bind(f: FrameV, name: Seq<char>, offset: i64) -> FrameV {
    let s = f.scopes.last();
    FrameV {
        scopes: f.scopes.update(f.scopes.len() - 1, ScopeV { vars: s.vars.push((name, offset)), ..s }),
        ..f
    }
}

pub proof fn lemma_with_top(c: CtxV, f: FrameV)
    requires
        c.frames.len() >= 1,
    ensures
        with_top(c, f).frames.len() == c.frames.len(),
        top(with_top(c, f)) == f,
        with_top(c, f).frames.drop_last() == c.frames.drop_last(),
{
    assert(with_top(c, f).frames.drop_last() =~= c.frames.drop_last());
}

pub proof fn lemma_frames_eq(a: Seq<FrameV>, b: Seq<FrameV>)
    requires
        a.len() == b.len(),
        a.len() >= 1,
        a.drop_last() == b.drop_last(),
        a.last() == b.last(),
    ensures
        a == b,
{
    assert forall|i: int| 0 <= i < a.len() implies a[i] == b[i] by {
        if i < a.len() - 1 {
            assert(a[i] == a.drop_last()[i]);
            assert(b[i] == b.drop_last()[i]);
        }
    }
    assert(a =~= b);
}

/// The frame of a function before its parameters are bound.
pub open spec fn empty_frame() -> FrameV {
    FrameV { stack_size: 0, scopes: seq![], loop_labels: seq![] }
}

/// The text of a data label or jump label with the given number.
pub open spec fn label_text(prefix: Seq<char>, n: int) -> Seq<char> {
    prefix + decimal(n as nat)
}

/// The data section entries of pooled strings: each a label line and a
/// newline-terminated byte string.
pub open spec fn data_text(strings: Seq<(Seq<char>, Seq<char>)>) -> Seq<char>
    decreases strings.len(),
{
    if strings.len() == 0 {
        seq![]
    } else {
        let (label, contents) = strings.last();
        data_text(strings.drop_last()) + label + ":\n"@ + "    db \""@ + contents + "\", 10\n"@
    }
}

pub open spec fn frame_wf(f: FrameV) -> bool {
    &&& 0 <= f.stack_size <= MAX_STACK
    &&& f.stack_size % 8 == 0
    &&& forall|i: int| 0 <= i < f.scopes.len() ==>
        0 <= #[trigger] f.scopes[i].created <= MAX_STACK && f.scopes[i].created % 8 == 0
}

impl Scope {
    spec fn links_wf(&self, i: int) -> bool {
        self.parent == (if i == 0 { usize::MAX } else { (i - 1) as usize })
    }

    /// The newest binding of `name` in this scope.
    fn find(&self, name: &String) -> (r: Option<Variable>)
        ensures
            match scope_lookup(self@.vars, name@) {
                Some(o) => r == Some(Variable { stack_position: o }),
                None => r is None,
            },
    {
        let ghost vs = self@.vars;
        let mut k: usize = self.variables.len();
        assert(vs.subrange(0, k as int) =~= vs);
        while k > 0
            invariant
                k <= self.variables@.len(),
                vs == self@.vars,
                scope_lookup(vs, name@) == scope_lookup(vs.subrange(0, k as int), name@),
            decreases k,
        {
            let entry = &self.variables[k - 1];
            assert(vs[k - 1] == (entry.0@, entry.1.stack_position));
            assert(vs.subrange(0, k as int).drop_last() =~= vs.subrange(0, k - 1));
            if entry.0 == *name {
                return Some(entry.1);
            }
            k = k - 1;
        }
        None
    }
}

proof fn lemma_scopes_view(old_v: Seq<Scope>, new_v: Seq<Scope>, s: Scope)
    requires
        old_v.len() > 0,
        new_v == old_v.drop_last().push(s),
    ensures
        new_v.map_values(|x: Scope| x@) =~= old_v.map_values(|x: Scope| x@).update(old_v.len() - 1, s@),
{
}

/// The frame after closing its innermost scope: bindings dropped, stack
/// unwound to the size at which the scope was opened.
pub open spec fn close_scope(f: FrameV) -> FrameV {
    let c = f.scopes.last().created;
    FrameV {
        stack_size: if f.stack_size > c { c } else { f.stack_size },
        scopes: f.scopes.drop_last(),
        ..f
    }
}

/// How many words closing the innermost scope pops.
pub open spec fn close_scope_pops(f: FrameV) -> nat {
    let c = f.scopes.last().created;
    if f.stack_size > c { ((f.stack_size - c) / 8) as nat } else { 0 }
}

impl StackPointer {
    /// The scope links and the frame's numbers are consistent.
    pub closed spec fn wf(&self) -> bool {
        &&& frame_wf(self@)
        &&& self.current_scope == (if self.scopes@.len() == 0 { usize::MAX } else {
            (self.scopes@.len() - 1) as usize
        })
        &&& forall|i: int| 0 <= i < self.scopes@.len() ==> (#[trigger] self.scopes@[i]).links_wf(i)
        &&& self.scopes@.len() <= usize::MAX
    }
}

impl ParsingContext {
    /// Every frame is well formed, there is a top-level frame, and no
    /// function name is declared twice.
    pub closed spec fn wf(&self) -> bool {
        &&& self@.functions.no_duplicates()
        &&& self.stack_pointers@.len() >= 1
        &&& forall|i: int| 0 <= i < self.stack_pointers@.len() ==> (#[trigger] self.stack_pointers@[i]).wf()
    }

    /// What well-formedness says of the frames.
    pub proof fn lemma_wf(&self)
        requires
            self.wf(),
        ensures
            self@.frames.len() >= 1,
            forall|i: int| 0 <= i < self@.frames.len() ==> frame_wf(#[trigger] self@.frames[i]),
            frame_wf(top(self@)),
    {
        assert forall|i: int| 0 <= i < self@.frames.len() implies frame_wf(#[trigger] self@.frames[i]) by {
            assert(self.stack_pointers@[i].wf());
        }
    }

    /// A fresh context with the top-level frame and nothing emitted.
    pub fn new() -> (r: Self)
        ensures
            r.wf(),
            r@ == (CtxV {
                output: seq![],
                labels: 0,
                strings: seq![],
                string_counter: 0,
                frames: seq![empty_frame()],
                functions: seq![],
            }),
    {
        let main_stack = StackPointer {
            stack_size: 0,
            scopes: Vec::new(),
            current_scope: usize::MAX,
            loop_exit_labels: Vec::new(),
        };
        proof {
            assert(main_stack@.scopes =~= seq![]);
            assert(main_stack@.loop_labels =~= seq![]);
            assert(main_stack@ == empty_frame());
        }
        let mut frames: Vec<StackPointer> = Vec::new();
        frames.push(main_stack);
        let r = ParsingContext {
            output: String::new(),
            label_counter: 0,
            strings: Vec::new(),
            string_counter: 0,
            stack_pointers: frames,
            function_names: Vec::new(),
        };
        assert(r@.frames =~= seq![empty_frame()]);
        assert(r@.strings =~= seq![]);
        assert(r@.functions =~= seq![]);
        r
    }

    /// Appends one line of text.
    pub fn push_line(&mut self, line: &str)
        ensures
            final(self).wf() == old(self).wf(),
            final(self)@ == emit(old(self)@, line@ + seq!['\n']),
    {
        self.output.append(line);
        self.output.append("\n");
        proof {
            reveal_strlit("\n");
            assert(self@.output =~= old(self)@.output + (line@ + seq!['\n']));
            assert(self@ =~= emit(old(self)@, line@ + seq!['\n']));
        }
    }

    /// Removes the top frame, to be put back with `put_top`.
    fn take_top(&mut self) -> (p: StackPointer)
        requires
            old(self).wf(),
        ensures
            p.wf(),
            p@ == top(old(self)@),
            final(self).stack_pointers@ == old(self).stack_pointers@.drop_last(),
            final(self)@.frames == old(self)@.frames.drop_last(),
            final(self).output == old(self).output,
            final(self).label_counter == old(self).label_counter,
            final(self).strings == old(self).strings,
            final(self).string_counter == old(self).string_counter,
            final(self).function_names == old(self).function_names,
    {
        let p = self.stack_pointers.pop().unwrap();
        assert(p == old(self).stack_pointers@.last());
        assert(self@.frames =~= old(self)@.frames.drop_last());
        p
    }

    /// Puts back the top frame taken by `take_top`.
    fn put_top(&mut self, p: StackPointer)
        requires
            p.wf(),
            old(self)@.functions.no_duplicates(),
            old(self).stack_pointers@.len() + 1 >= 1,
            forall|i: int| 0 <= i < old(self).stack_pointers@.len() ==> (#[trigger] old(self).stack_pointers@[i]).wf(),
        ensures
            final(self).wf(),
            final(self).stack_pointers@ == old(self).stack_pointers@.push(p),
            final(self)@.frames == old(self)@.frames.push(p@),
            final(self).output == old(self).output,
            final(self).label_counter == old(self).label_counter,
            final(self).strings == old(self).strings,
            final(self).string_counter == old(self).string_counter,
            final(self).function_names == old(self).function_names,
    {
        self.stack_pointers.push(p);
        assert(self@.frames =~= old(self)@.frames.push(p@));
    }

    proof fn lemma_replace_top(old_ctx: CtxV, mid: CtxV, fin: CtxV, f: FrameV)
        requires
            old_ctx.frames.len() >= 1,
            mid.frames == old_ctx.frames.drop_last(),
            fin.frames == mid.frames.push(f),
        ensures
            fin.frames == with_top(old_ctx, f).frames,
    {
        assert(fin.frames =~= old_ctx.frames.update(old_ctx.frames.len() - 1, f));
    }

    /// Emits a push of `register` and counts one more word on the stack.
    pub fn push_on_stack(&mut self, register: &str)
        requires
            old(self).wf(),
            top(old(self)@).stack_size + 8 <= MAX_STACK,
        ensures
            final(self).wf(),
            final(self)@ == with_top(
                emit(old(self)@, "    push "@ + register@ + seq!['\n']),
                with_stack(top(old(self)@), top(old(self)@).stack_size + 8),
            ),
    {
        let line = crate::text::concat("    push ", register);
        self.push_line(line.as_str());
        let ghost mid = self@;
        let mut p = self.take_top();
        let ghost mid2 = self@;
        p.stack_size = p.stack_size + WORD;
        assert(p@ =~= with_stack(top(old(self)@), top(old(self)@).stack_size + 8));
        self.put_top(p);
        proof {
            Self::lemma_replace_top(mid, mid2, self@, p@);
            assert(self@ =~= with_top(mid, p@));
        }
    }

    /// Emits a pop into `register` and counts one word less on the stack.
    pub fn pop_from_stack(&mut self, register: &str)
        requires
            old(self).wf(),
            top(old(self)@).stack_size >= 8,
        ensures
            final(self).wf(),
            final(self)@ == with_top(
                emit(old(self)@, "    pop "@ + register@ + seq!['\n']),
                with_stack(top(old(self)@), top(old(self)@).stack_size - 8),
            ),
    {
        let line = crate::text::concat("    pop ", register);
        self.push_line(line.as_str());
        let ghost mid = self@;
        let mut p = self.take_top();
        let ghost mid2 = self@;
        p.stack_size = p.stack_size - WORD;
        assert(p@ =~= with_stack(top(old(self)@), top(old(self)@).stack_size - 8));
        self.put_top(p);
        proof {
            Self::lemma_replace_top(mid, mid2, self@, p@);
            assert(self@ =~= with_top(mid, p@));
        }
    }

    /// Emits pops until the top frame's stack is empty.
    pub fn clear_current_stack(&mut self)
        requires
            old(self).wf(),
        ensures
            final(self).wf(),
            final(self)@ == with_top(
                emit(old(self)@, repeat("    pop rsi\n"@, (top(old(self)@).stack_size / 8) as nat)),
                with_stack(top(old(self)@), 0),
            ),
    {
        let ghost n0 = top(old(self)@).stack_size;
        let mut p = self.take_top();
        let ghost mid2 = self@;
        let ghost rest = self.stack_pointers@;
        while p.stack_size > 0
            invariant
                p.wf(),
                0 <= p.stack_size <= n0,
                p@ == with_stack(top(old(self)@), p.stack_size as int),
                self.stack_pointers@ == rest,
                mid2.frames == rest.map_values(|q: StackPointer| q@),
                forall|i: int| 0 <= i < rest.len() ==> (#[trigger] rest[i]).wf(),
                self.label_counter == old(self).label_counter,
                self.strings == old(self).strings,
                self.string_counter == old(self).string_counter,
                self.function_names == old(self).function_names,
                n0 % 8 == 0,
                self.output@ == old(self).output@ + repeat("    pop rsi\n"@, ((n0 - p.stack_size) / 8) as nat),
            decreases p.stack_size,
        {
            self.output.append("    pop rsi\n");
            let ghost before = p.stack_size;
            let ghost pre = p;
            p.stack_size = p.stack_size - WORD;
            proof {
                assert(p.stack_size % 8 == 0);
                assert(p.scopes == pre.scopes);
                assert(p@.scopes == pre@.scopes);
                assert(frame_wf(p@));
                assert(((n0 - p.stack_size) / 8) as nat == ((n0 - before) / 8) as nat + 1);
                assert(p@ =~= with_stack(top(old(self)@), p.stack_size as int));
            }
        }
        self.put_top(p);
        proof {
            Self::lemma_replace_top(old(self)@, mid2, self@, p@);
            assert(self@ =~= with_top(
                emit(old(self)@, repeat("    pop rsi\n"@, (top(old(self)@).stack_size / 8) as nat)),
                with_stack(top(old(self)@), 0),
            ));
        }
    }

    /// The binding of `name` visible in the top frame, innermost scope first.
    pub fn get_var(&self, name: &String) -> (r: Option<Variable>)
        requires
            self.wf(),
        ensures
            match frame_lookup(top(self@).scopes, name@) {
                Some(o) => r == Some(Variable { stack_position: o }),
                None => r is None,
            },
    {
        let n = self.stack_pointers.len();
        let p = &self.stack_pointers[n - 1];
        assert(p@ == top(self@));
        assert(p.wf());
        let ghost sc = p@.scopes;
        let mut idx: usize = p.current_scope;
        proof {
            assert(sc.len() == p.scopes@.len());
            assert(p.current_scope == (if p.scopes@.len() == 0 { usize::MAX } else {
                (p.scopes@.len() - 1) as usize
            }));
            assert(sc.subrange(0, sc.len() as int) =~= sc);
            if sc.len() == 0 {
                assert(idx == usize::MAX);
                assert(sc.subrange(0, 0) =~= sc);
            } else {
                assert(idx as int + 1 == sc.len());
            }
        }
        while idx != usize::MAX
            invariant
                p.wf(),
                sc == p@.scopes,
                sc == top(self@).scopes,
                idx == usize::MAX || idx < sc.len(),
                frame_lookup(sc, name@) == frame_lookup(
                    sc.subrange(0, if idx == usize::MAX { 0int } else { idx as int + 1 }),
                    name@,
                ),
            decreases if idx == usize::MAX { 0int } else { idx as int + 1 },
        {
            let scope = &p.scopes[idx];
            assert(scope@ == sc[idx as int]);
            assert(p.scopes@[idx as int].links_wf(idx as int));
            let ghost pre = sc.subrange(0, idx as int + 1);
            assert(pre.last() == sc[idx as int]);
            assert(pre.drop_last() =~= sc.subrange(0, idx as int));
            match scope.find(name) {
                Some(v) => {
                    assert(scope_lookup(pre.last().vars, name@) == Some(v.stack_position));
                    assert(frame_lookup(pre, name@) == Some(v.stack_position));
                    return Some(v);
                },
                None => {},
            }
            idx = scope.parent;
        }
        None
    }

    /// Whether `name` is bound in the innermost scope of the top frame.
    pub fn declared_in_scope(&self, name: &String) -> (r: bool)
        requires
            self.wf(),
        ensures
            r == (top(self@).scopes.len() > 0 && scope_lookup(top(self@).scopes.last().vars, name@) is Some),
    {
        let n = self.stack_pointers.len();
        let p = &self.stack_pointers[n - 1];
        assert(p@ == top(self@));
        let k = p.scopes.len();
        if k == 0 {
            return false;
        }
        assert(p.scopes@[k - 1]@ == top(self@).scopes.last());
        p.scopes[k - 1].find(name).is_some()
    }

    /// Binds `name` in the innermost scope of the top frame at the current
    /// stack size; `None`, and no change, when the name is already bound in
    /// that scope or no scope is open.
    pub fn add_var(&mut self, name: String) -> (r: Option<u64>)
        requires
            old(self).wf(),
        ensures
            final(self).wf(),
            ({
                let f = top(old(self)@);
                if f.scopes.len() == 0 || scope_lookup(f.scopes.last().vars, name@) is Some {
                    r is None && final(self)@ == old(self)@
                } else {
                    r == Some(f.stack_size as u64)
                        && final(self)@ == with_top(old(self)@, bind(f, name@, f.stack_size as i64))
                }
            }),
    {
        let ghost f = top(old(self)@);
        let mut p = self.take_top();
        let ghost mid2 = self@;
        if p.scopes.len() == 0 {
            self.put_top(p);
            proof {
                Self::lemma_replace_top(old(self)@, mid2, self@, p@);
                assert(self@.frames =~= old(self)@.frames);
                assert(self@ =~= old(self)@);
            }
            return None;
        }
        let ghost pre = p;
        let mut sc = p.scopes.pop().unwrap();
        assert(sc@ == f.scopes.last());
        if sc.find(&name).is_some() {
            p.scopes.push(sc);
            assert(p.scopes@ =~= pre.scopes@);
            self.put_top(p);
            proof {
                Self::lemma_replace_top(old(self)@, mid2, self@, p@);
                assert(self@.frames =~= old(self)@.frames);
                assert(self@ =~= old(self)@);
            }
            return None;
        }
        let off = p.stack_size;
        sc.variables.push((name, Variable { stack_position: off as i64 }));
        assert(sc@.vars =~= f.scopes.last().vars.push((name@, off as i64)));
        p.scopes.push(sc);
        proof {
            lemma_scopes_view(pre.scopes@, p.scopes@, sc);
            assert(p@.scopes =~= bind(f, name@, off as i64).scopes);
            let k = p.scopes@.len() - 1;
            assert(p.scopes@[k].links_wf(k));
            assert forall|i: int| 0 <= i < p.scopes@.len() implies (#[trigger] p.scopes@[i]).links_wf(i) by {
                if i < k {
                    assert(p.scopes@[i] == pre.scopes@[i]);
                }
            }
            assert(p@ =~= bind(f, name@, off as i64));
        }
        self.put_top(p);
        proof {
            Self::lemma_replace_top(old(self)@, mid2, self@, p@);
            assert(self@ =~= with_top(old(self)@, bind(f, name@, f.stack_size as i64)));
        }
        Some(off)
    }

    /// Binds a parameter at a fixed offset in the innermost scope of the top
    /// frame (replacing an earlier binding of the name there).
    pub fn add_offset_var(&mut self, name: String, offset: i64)
        requires
            old(self).wf(),
        ensures
            final(self).wf(),
            ({
                let f = top(old(self)@);
                if f.scopes.len() == 0 {
                    final(self)@ == old(self)@
                } else {
                    final(self)@ == with_top(old(self)@, bind(f, name@, offset))
                }
            }),
    {
        let ghost f = top(old(self)@);
        let mut p = self.take_top();
        let ghost mid2 = self@;
        if p.scopes.len() == 0 {
            self.put_top(p);
            proof {
                Self::lemma_replace_top(old(self)@, mid2, self@, p@);
                assert(self@.frames =~= old(self)@.frames);
                assert(self@ =~= old(self)@);
            }
            return;
        }
        let ghost pre = p;
        let mut sc = p.scopes.pop().unwrap();
        assert(sc@ == f.scopes.last());
        sc.variables.push((name, Variable { stack_position: offset }));
        assert(sc@.vars =~= f.scopes.last().vars.push((name@, offset)));
        p.scopes.push(sc);
        proof {
            lemma_scopes_view(pre.scopes@, p.scopes@, sc);
            assert(p@.scopes =~= bind(f, name@, offset).scopes);
            let k = p.scopes@.len() - 1;
            assert(p.scopes@[k].links_wf(k));
            assert forall|i: int| 0 <= i < p.scopes@.len() implies (#[trigger] p.scopes@[i]).links_wf(i) by {
                if i < k {
                    assert(p.scopes@[i] == pre.scopes@[i]);
                }
            }
            assert(p@ =~= bind(f, name@, offset));
        }
        self.put_top(p);
        proof {
            Self::lemma_replace_top(old(self)@, mid2, self@, p@);
            assert(self@ =~= with_top(old(self)@, bind(f, name@, offset)));
        }
    }

    /// Opens a scope in the top frame, nested in the current one.
    pub fn push_scope(&mut self)
        requires
            old(self).wf(),
        ensures
            final(self).wf(),
            final(self)@ == with_top(old(self)@, open_scope(top(old(self)@))),
    {
        let ghost f = top(old(self)@);
        let mut p = self.take_top();
        let ghost mid2 = self@;
        let ghost pre = p;
        let parent = p.current_scope;
        let created = p.stack_size;
        p.scopes.push(Scope { variables: Vec::new(), parent, stack_size_at_creation: created });
        p.current_scope = p.scopes.len() - 1;
        proof {
            let k = p.scopes@.len() - 1;
            assert(p.scopes@[k].variables@ =~= Seq::<(String, Variable)>::empty());
            assert(p.scopes@[k]@.vars =~= seq![]);
            assert(p@.scopes =~= open_scope(f).scopes);
            assert(p.scopes@[k].links_wf(k));
            assert forall|i: int| 0 <= i < p.scopes@.len() implies (#[trigger] p.scopes@[i]).links_wf(i) by {
                if i < k {
                    assert(p.scopes@[i] == pre.scopes@[i]);
                }
            }
            assert(p@ =~= open_scope(f));
        }
        self.put_top(p);
        proof {
            Self::lemma_replace_top(old(self)@, mid2, self@, p@);
            assert(self@ =~= with_top(old(self)@, open_scope(f)));
        }
    }

    /// Closes the innermost scope of the top frame: emits a pop for every word
    /// pushed since it was opened, and makes its parent current.
    pub fn pop_scope(&mut self)
        requires
            old(self).wf(),
        ensures
            final(self).wf(),
            ({
                let f = top(old(self)@);
                if f.scopes.len() == 0 {
                    final(self)@ == old(self)@
                } else {
                    final(self)@ == with_top(
                        emit(old(self)@, repeat("    pop rsi\n"@, close_scope_pops(f))),
                        close_scope(f),
                    )
                }
            }),
    {
        let ghost f = top(old(self)@);
        let mut p = self.take_top();
        let ghost mid2 = self@;
        let ghost rest = self.stack_pointers@;
        if p.scopes.len() == 0 {
            self.put_top(p);
            proof {
                Self::lemma_replace_top(old(self)@, mid2, self@, p@);
                assert(self@.frames =~= old(self)@.frames);
                assert(self@ =~= old(self)@);
            }
            return;
        }
        let ghost pre = p;
        let sc = p.scopes.pop().unwrap();
        assert(sc@ == f.scopes.last());
        assert(pre.scopes@[pre.scopes@.len() - 1].links_wf(pre.scopes@.len() - 1));
        p.current_scope = sc.parent;
        let created = sc.stack_size_at_creation;
        assert(0 <= created <= MAX_STACK && created % 8 == 0) by {
            assert(f.scopes[f.scopes.len() - 1].created == created);
        }
        let ghost s0 = p.stack_size;
        proof {
            assert forall|i: int| 0 <= i < p.scopes@.len() implies (#[trigger] p.scopes@[i]).links_wf(i) by {
                assert(p.scopes@[i] == pre.scopes@[i]);
            }
            assert(p@.scopes =~= f.scopes.drop_last());
            assert(p@ == (FrameV { stack_size: p.stack_size as int, scopes: f.scopes.drop_last(), ..f }));
        }
        while p.stack_size > created
            invariant
                p.wf(),
                created <= MAX_STACK,
                created % 8 == 0,
                s0 % 8 == 0,
                s0 >= created ==> p.stack_size >= created,
                s0 <= created ==> p.stack_size == s0,
                p.stack_size <= s0,
                s0 == f.stack_size,
                p@ == (FrameV { stack_size: p.stack_size as int, scopes: f.scopes.drop_last(), ..f }),
                self.stack_pointers@ == rest,
                mid2.frames == rest.map_values(|q: StackPointer| q@),
                forall|i: int| 0 <= i < rest.len() ==> (#[trigger] rest[i]).wf(),
                self.label_counter == old(self).label_counter,
                self.strings == old(self).strings,
                self.string_counter == old(self).string_counter,
                self.function_names == old(self).function_names,
                self.output@ == old(self).output@ + repeat("    pop rsi\n"@, ((s0 - p.stack_size) / 8) as nat),
            decreases p.stack_size,
        {
            self.output.append("    pop rsi\n");
            let ghost before = p.stack_size;
            let ghost q = p;
            p.stack_size = p.stack_size - WORD;
            proof {
                assert(p.stack_size % 8 == 0);
                assert(p.scopes == q.scopes);
                assert(p@.scopes == q@.scopes);
                assert(frame_wf(p@));
                assert(((s0 - p.stack_size) / 8) as nat == ((s0 - before) / 8) as nat + 1);
                assert(p@ =~= (FrameV { stack_size: p.stack_size as int, scopes: f.scopes.drop_last(), ..f }));
            }
        }
        proof {
            assert(p@ =~= close_scope(f));
            if !(s0 > created) {
                assert(p.stack_size == s0);
            }
        }
        self.put_top(p);
        proof {
            Self::lemma_replace_top(old(self)@, mid2, self@, p@);
            assert(self@ =~= with_top(
                emit(old(self)@, repeat("    pop rsi\n"@, close_scope_pops(f))),
                close_scope(f),
            ));
        }
    }

    /// A fresh jump label.
    pub fn new_label(&mut self) -> (r: String)
        requires
            old(self)@.labels < u64::MAX,
        ensures
            final(self).wf() == old(self).wf(),
            r@ == label_text("LABEL"@, old(self)@.labels + 1),
            final(self)@ == (CtxV { labels: old(self)@.labels + 1, ..old(self)@ }),
    {
        self.label_counter = self.label_counter + 1;
        let d = decimal_string(self.label_counter);
        crate::text::concat("LABEL", d.as_str())
    }

    /// Pools a string literal under a fresh data label, which it returns.
    pub fn add_string(&mut self, val: &str) -> (r: String)
        requires
            old(self)@.string_counter < u64::MAX,
        ensures
            final(self).wf() == old(self).wf(),
            r@ == label_text("STRING"@, old(self)@.string_counter + 1),
            final(self)@ == (CtxV {
                string_counter: old(self)@.string_counter + 1,
                strings: old(self)@.strings.push((r@, val@)),
                ..old(self)@
            }),
    {
        self.string_counter = self.string_counter + 1;
        let d = decimal_string(self.string_counter);
        let label = crate::text::concat("STRING", d.as_str());
        self.strings.push(GlobalString { string: String::from_str(val), label: label.clone() });
        assert(self@.strings =~= old(self)@.strings.push((label@, val@)));
        label
    }

    /// Enters a function: a new, empty frame on top.
    pub fn add_stack_pointer(&mut self)
        requires
            old(self).wf(),
        ensures
            final(self).wf(),
            final(self)@ == (CtxV { frames: old(self)@.frames.push(empty_frame()), ..old(self)@ }),
    {
        let p = StackPointer {
            stack_size: 0,
            scopes: Vec::new(),
            current_scope: usize::MAX,
            loop_exit_labels: Vec::new(),
        };
        proof {
            assert(p@.scopes =~= seq![]);
            assert(p@.loop_labels =~= seq![]);
            assert(p@ == empty_frame());
        }
        self.stack_pointers.push(p);
        assert(self@.frames =~= old(self)@.frames.push(empty_frame()));
    }

    /// Leaves a function: drops the top frame.
    pub fn pop_stack_pointer(&mut self)
        requires
            old(self).wf(),
            old(self)@.frames.len() > 1,
        ensures
            final(self).wf(),
            final(self)@ == (CtxV { frames: old(self)@.frames.drop_last(), ..old(self)@ }),
    {
        self.stack_pointers.pop();
        assert(self@.frames =~= old(self)@.frames.drop_last());
    }

    /// The frames, outermost first.
    pub fn stack_pointers(&self) -> (r: &Vec<StackPointer>)
        ensures
            r@.map_values(|p: StackPointer| p@) == self@.frames,
    {
        &self.stack_pointers
    }

    /// How many frames are open (1 at the top level).
    pub fn frame_depth(&self) -> (r: usize)
        ensures
            r == self@.frames.len(),
    {
        self.stack_pointers.len()
    }

    /// The stack size of the top frame, in bytes.
    pub fn stack_size(&self) -> (r: u64)
        requires
            self.wf(),
        ensures
            r == top(self@).stack_size,
    {
        let n = self.stack_pointers.len();
        assert(self.stack_pointers@[n - 1].wf());
        self.stack_pointers[n - 1].stack_size
    }

    /// Sets the top frame's stack size, for code that follows a jump away
    /// from a point where the stack was unwound.
    pub fn reset_stack_size(&mut self, size: u64)
        requires
            old(self).wf(),
            size <= MAX_STACK,
            size % 8 == 0,
        ensures
            final(self).wf(),
            final(self)@ == with_top(old(self)@, with_stack(top(old(self)@), size as int)),
    {
        let mut p = self.take_top();
        let ghost mid2 = self@;
        p.stack_size = size;
        assert(p@ =~= with_stack(top(old(self)@), size as int));
        self.put_top(p);
        proof {
            Self::lemma_replace_top(old(self)@, mid2, self@, p@);
            assert(self@ =~= with_top(old(self)@, p@));
        }
    }

    /// Makes `label` the exit label of the innermost loop of the top frame.
    pub fn add_loop_exit_label(&mut self, label: String)
        requires
            old(self).wf(),
        ensures
            final(self).wf(),
            final(self)@ == with_top(old(self)@, (FrameV {
                loop_labels: top(old(self)@).loop_labels.push(label@),
                ..top(old(self)@)
            })),
    {
        let mut p = self.take_top();
        let ghost mid2 = self@;
        let ghost pre = p@;
        p.loop_exit_labels.push(label);
        assert(p@.loop_labels =~= pre.loop_labels.push(label@));
        assert(p@ =~= (FrameV { loop_labels: pre.loop_labels.push(label@), ..pre }));
        self.put_top(p);
        proof {
            Self::lemma_replace_top(old(self)@, mid2, self@, p@);
            assert(self@ =~= with_top(old(self)@, p@));
        }
    }

    /// Forgets the exit label of the innermost loop of the top frame.
    pub fn pop_loop_exit_label(&mut self)
        requires
            old(self).wf(),
        ensures
            final(self).wf(),
            final(self)@ == with_top(old(self)@, (FrameV {
                loop_labels: if top(old(self)@).loop_labels.len() == 0 {
                    top(old(self)@).loop_labels
                } else {
                    top(old(self)@).loop_labels.drop_last()
                },
                ..top(old(self)@)
            })),
    {
        let mut p = self.take_top();
        let ghost mid2 = self@;
        let ghost pre = p@;
        if p.loop_exit_labels.len() > 0 {
            p.loop_exit_labels.pop();
            assert(p@.loop_labels =~= pre.loop_labels.drop_last());
            assert(p@ =~= (FrameV { loop_labels: pre.loop_labels.drop_last(), ..pre }));
        } else {
            assert(p@ =~= pre);
        }
        self.put_top(p);
        proof {
            Self::lemma_replace_top(old(self)@, mid2, self@, p@);
            assert(self@ =~= with_top(old(self)@, p@));
        }
    }

    /// The exit label of the innermost loop of the top frame, if any.
    pub fn current_loop_exit_label(&self) -> (r: Option<String>)
        requires
            self.wf(),
        ensures
            top(self@).loop_labels.len() == 0 ==> r is None,
            top(self@).loop_labels.len() > 0 ==> (r matches Some(l) && l@ == top(self@).loop_labels.last()),
    {
        let n = self.stack_pointers.len();
        let p = &self.stack_pointers[n - 1];
        assert(p@ == top(self@));
        let k = p.loop_exit_labels.len();
        if k == 0 {
            None
        } else {
            Some(p.loop_exit_labels[k - 1].clone())
        }
    }

    /// Whether a function of that name has been declared.
    pub fn function_exists(&self, name: &String) -> (r: bool)
        ensures
            r == self@.functions.contains(name@),
    {
        let mut i: usize = 0;
        while i < self.function_names.len()
            invariant
                i <= self.function_names@.len(),
                forall|j: int| 0 <= j < i ==> self@.functions[j] != name@,
            decreases self.function_names@.len() - i,
        {
            if self.function_names[i] == *name {
                assert(self@.functions[i as int] == name@);
                return true;
            }
            i = i + 1;
        }
        false
    }

    /// Declares a function name; false, and no change, if it was declared already.
    pub fn add_function_name(&mut self, name: String) -> (r: bool)
        ensures
            old(self).wf() ==> final(self).wf(),
            r == !old(self)@.functions.contains(name@),
            r ==> final(self)@ == (CtxV { functions: old(self)@.functions.push(name@), ..old(self)@ }),
            !r ==> final(self)@ == old(self)@,
    {
        if self.function_exists(&name) {
            return false;
        }
        self.function_names.push(name);
        assert(self@.functions =~= old(self)@.functions.push(name@));
        proof {
            if old(self).wf() {
                let fs = self@.functions;
                let n = fs.len() - 1;
                assert forall|i: int, j: int| 0 <= i < fs.len() && 0 <= j < fs.len() && i != j implies fs[i] != fs[j] by {
                    if i == n {
                        assert(fs[j] == old(self)@.functions[j]);
                    } else if j == n {
                        assert(fs[i] == old(self)@.functions[i]);
                    } else {
                        assert(fs[i] == old(self)@.functions[i] && fs[j] == old(self)@.functions[j]);
                    }
                }
            }
        }
        true
    }

    /// Emits the data entries of all pooled strings, in order.
    pub fn emit_data_section(&mut self)
        ensures
            final(self).wf() == old(self).wf(),
            final(self)@ == emit(old(self)@, data_text(old(self)@.strings)),
    {
        let mut i: usize = 0;
        let ghost sv = self@.strings;
        assert(sv.subrange(0, 0) =~= seq![]);
        while i < self.strings.len()
            invariant
                i <= self.strings@.len(),
                sv == old(self)@.strings,
                sv == self@.strings,
                self.stack_pointers == old(self).stack_pointers,
                self.label_counter == old(self).label_counter,
                self.string_counter == old(self).string_counter,
                self.function_names == old(self).function_names,
                self.strings == old(self).strings,
                self.output@ == old(self).output@ + data_text(sv.subrange(0, i as int)),
            decreases self.strings@.len() - i,
        {
            let g = &self.strings[i];
            let ghost before = self.output@;
            self.output.append(g.label.as_str());
            self.output.append(":\n");
            self.output.append("    db \"");
            self.output.append(g.string.as_str());
            self.output.append("\", 10\n");
            proof {
                let sub = sv.subrange(0, i as int + 1);
                assert(sub.drop_last() =~= sv.subrange(0, i as int));
                assert(sub.last() == (g.label@, g.string@));
                assert(self.output@ =~= old(self).output@ + data_text(sub));
            }
            i = i + 1;
        }
        assert(sv.subrange(0, i as int) =~= sv);
        assert(self@ =~= emit(old(self)@, data_text(old(self)@.strings)));
    }

    /// The emitted text, consuming the context.
    pub fn into_output(self) -> (r: String)
        ensures
            r@ == self@.output,
    {
        self.output
    }
}

} // verus!
