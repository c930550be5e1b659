use dynasmrt::DynasmApi;
use vstd::prelude::*;

verus! {

/// A `dynasmrt::Assembler` for x86-64: the buffer that code is assembled
/// into. Verus sees nothing inside it; what it holds is [`assembled`], and the
/// functions below say what `dynasmrt` does to that. None of them commits
/// code, or gives the assembler a label or a relocation.
#[verifier::external_body]
pub struct Assembler {
    ops: dynasmrt::Assembler<dynasmrt::relocations::SimpleRelocation>,
}

/// `dynasmrt::ExecutableBuffer`: finished code in executable memory.
#[verifier::external_type_specification]
#[verifier::external_body]
pub struct ExExecutableBuffer(dynasmrt::ExecutableBuffer);

/// The bytes that have been assembled into `ops` and not yet committed.
pub uninterp spec fn assembled(ops: Assembler) -> Seq<u8>;

/// The bytes that `code` holds.
pub uninterp spec fn buffer_bytes(code: dynasmrt::ExecutableBuffer) -> Seq<u8>;

/// The `count` low bytes of `value` in two's complement, lowest first.
pub open spec fn le_bytes(value: int, count: nat) -> Seq<u8>
    decreases count,
{
    if count == 0 {
        Seq::empty()
    } else {
        seq![(value % 256) as u8] + le_bytes(value / 256, (count - 1) as nat)
    }
}

/// `dynasmrt::Assembler::new`: an assembler that holds no bytes, or nothing
/// where the memory for it cannot be had.
#[verifier::external_body]
pub(crate) fn new_assembler() -> (ops: Option<Assembler>)
    ensures
        ops matches Some(ops) ==> assembled(ops) == Seq::<u8>::empty(),
{
    match dynasmrt::Assembler::new() {
        Ok(ops) => Some(Assembler { ops }),
        Err(_) => None,
    }
}

/// `DynasmApi::offset` of an assembler: the number of bytes committed and
/// assembled so far; none is ever committed here.
#[verifier::external_body]
pub(crate) fn offset(ops: &Assembler) -> (at: usize)
    ensures
        at == assembled(*ops).len(),
{
    ops.ops.offset().0
}

/// `Extend::extend` of an assembler, over the bytes of a slice: appends
/// `bytes`.
#[verifier::external_body]
pub(crate) fn extend(ops: &mut Assembler, bytes: &[u8])
    ensures
        assembled(*final(ops)) == assembled(*old(ops)) + bytes@,
{
    ops.ops.extend(bytes)
}

/// `DynasmApi::push_i32` of an assembler: appends the four bytes of
/// `value`, lowest first.
#[verifier::external_body]
pub(crate) fn push_i32(ops: &mut Assembler, value: i32)
    ensures
        assembled(*final(ops)) == assembled(*old(ops)) + le_bytes(value as int, 4),
{
    ops.ops.push_i32(value)
}

/// `DynasmApi::push_i64` of an assembler: appends the eight bytes of
/// `value`, lowest first.
#[verifier::external_body]
pub(crate) fn push_i64(ops: &mut Assembler, value: i64)
    ensures
        assembled(*final(ops)) == assembled(*old(ops)) + le_bytes(value as int, 8),
{
    ops.ops.push_i64(value)
}

/// `bytes` with `patch` written over what stands from `at` on.
pub open spec fn placed(bytes: Seq<u8>, at: int, patch: Seq<u8>) -> Seq<u8> {
    Seq::new(
        bytes.len(),
        |i: int|
            if at <= i < at + patch.len() {
                patch[i - at]
            } else {
                bytes[i]
            },
    )
}

/// `Assembler::alter_uncommitted`, `UncommittedModifier::goto` and
/// `DynasmApi::push_i32` of the modifier: writes the four bytes of `value`,
/// lowest first, over the four bytes that stand at `at`. The modifier indexes
/// the buffer, so the four bytes have to be there.
#[verifier::external_body]
pub(crate) fn patch_i32(ops: &mut Assembler, at: usize, value: i32)
    requires
        at + 4 <= assembled(*old(ops)).len(),
    ensures
        assembled(*final(ops)) == placed(assembled(*old(ops)), at as int, le_bytes(value as int, 4)),
{
    let mut modifier = ops.ops.alter_uncommitted();
    modifier.goto(dynasmrt::AssemblyOffset(at));
    modifier.push_i32(value);
}

/// `Assembler::finalize`: commits the assembled bytes to executable memory
/// and hands that memory out. It keeps the memory only while an `Executor`
/// made by `Assembler::reader` shares it, and no such reader is ever made of
/// the assembler held here, so the memory is always handed out. It panics
/// where committing reports an error, which takes a label or a relocation,
/// or where the system refuses the memory.
#[verifier::external_body]
pub(crate) fn finalize(ops: Assembler) -> (code: Option<dynasmrt::ExecutableBuffer>)
    ensures
        code is Some,
        buffer_bytes(code->Some_0) == assembled(ops),
{
    ops.ops.finalize().ok()
}

/// The slice that a `dynasmrt::ExecutableBuffer` derefs to, copied: the
/// bytes that the buffer holds.
#[verifier::external_body]
pub(crate) fn copy_of(code: &dynasmrt::ExecutableBuffer) -> (bytes: Vec<u8>)
    ensures
        bytes@ == buffer_bytes(*code),
{
    code.to_vec()
}

/// A stretch of code. A jump out of it to the label for failed I/O is an
/// exit: its four bytes of distance stand at the exit's offset, and hold
/// zero until the label is known.
pub struct Fragment {
    /// The bytes.
    pub code: Seq<u8>,
    /// Where in `code` the distances of the exits stand.
    pub exits: Seq<int>,
    /// Whether every jump within the code spans no more than its four bytes
    /// can hold. Of code that does not fit, nothing more is said.
    pub fits: bool,
}

/// `exits` as they are when the code before them grows by `by` bytes.
pub open spec fn shifted(exits: Seq<int>, by: int) -> Seq<int> {
    Seq::new(exits.len(), |i: int| exits[i] + by)
}

/// `code` without an exit.
pub open spec fn plain(code: Seq<u8>) -> Fragment {
    Fragment { code, exits: Seq::empty(), fits: true }
}

/// `first` followed by `second`.
pub open spec fn joined(first: Fragment, second: Fragment) -> Fragment {
    Fragment {
        code: first.code + second.code,
        exits: first.exits + shifted(second.exits, first.code.len() as int),
        fits: first.fits && second.fits,
    }
}

/// Whether `after` is `before` followed by `fragment`.
pub open spec fn appended(before: Fragment, after: Fragment, fragment: Fragment) -> bool {
    &&& after.fits == (before.fits && fragment.fits)
    &&& after.fits ==> after == joined(before, fragment)
}

/// Whether every exit of `exits` can jump to `label`.
pub open spec fn exits_fit(exits: Seq<int>, label: int) -> bool {
    forall|i: int|
        0 <= i < exits.len() ==> i32::MIN <= label - (#[trigger] exits[i] + 4) <= i32::MAX
}

/// `code` with every exit of `exits` set to jump to `label`: the distance is
/// counted from the end of its four bytes.
pub open spec fn resolved(code: Seq<u8>, exits: Seq<int>, label: int) -> Seq<u8>
    decreases exits.len(),
{
    if exits.len() == 0 {
        code
    } else {
        placed(
            resolved(code, exits.drop_last(), label),
            exits.last(),
            le_bytes(label - (exits.last() + 4), 4),
        )
    }
}

/// `body` made a whole function: after it comes `normal_exit`, then the
/// label for failed I/O, to which every exit of `body` jumps, and
/// `error_exit`.
pub open spec fn finished(body: Fragment, normal_exit: Seq<u8>, error_exit: Seq<u8>) -> Fragment {
    let label = (body.code.len() + normal_exit.len()) as int;
    Fragment {
        code: resolved(body.code + normal_exit, body.exits, label) + error_exit,
        exits: Seq::empty(),
        fits: body.fits && exits_fit(body.exits, label),
    }
}

/// Whether the exits of `exits` lie within `length` bytes of code, one after
/// the other, and none runs into the next.
pub open spec fn exits_in_order(exits: Seq<int>, length: int) -> bool {
    &&& forall|i: int|
        0 <= i < exits.len() ==> 0 <= #[trigger] exits[i] && exits[i] + 4 <= length
    &&& forall|i: int, j: int|
        0 <= i < j < exits.len() ==> #[trigger] exits[i] + 4 <= #[trigger] exits[j]
}

/// What resolving comes to, where the exits are in order: the code keeps its
/// length, the four bytes of every exit hold the distance from their end to
/// the label, and every other byte is as it was.
pub proof fn lemma_resolved(code: Seq<u8>, exits: Seq<int>, label: int)
    requires
        exits_in_order(exits, code.len() as int),
    ensures
        resolved(code, exits, label).len() == code.len(),
        forall|i: int|
            0 <= i < exits.len() ==> resolved(code, exits, label).subrange(
                #[trigger] exits[i],
                exits[i] + 4,
            ) == le_bytes(label - (exits[i] + 4), 4),
        forall|at: int|
            0 <= at < code.len() && (forall|i: int|
                0 <= i < exits.len() ==> !(#[trigger] exits[i] <= at < exits[i] + 4))
                ==> #[trigger] resolved(code, exits, label)[at] == code[at],
    decreases exits.len(),
{
    if exits.len() > 0 {
        let before = exits.drop_last();
        let last = exits.last();
        let patch = le_bytes(label - (last + 4), 4);
        let inner = resolved(code, before, label);
        let outer = resolved(code, exits, label);
        assert forall|i: int| 0 <= i < before.len() implies 0 <= #[trigger] before[i] && before[i]
            + 4 <= code.len() by {
            assert(before[i] == exits[i]);
        }
        assert forall|i: int, j: int| 0 <= i < j < before.len() implies #[trigger] before[i] + 4
            <= #[trigger] before[j] by {
            assert(before[i] == exits[i]);
            assert(before[j] == exits[j]);
        }
        lemma_resolved(code, before, label);
        lemma_le_bytes_len(label - (last + 4), 4);
        assert(outer == placed(inner, last, patch));
        assert forall|i: int| 0 <= i < exits.len() implies outer.subrange(
            #[trigger] exits[i],
            exits[i] + 4,
        ) == le_bytes(label - (exits[i] + 4), 4) by {
            if i < before.len() {
                assert(before[i] == exits[i]);
                assert(exits[i] + 4 <= exits[exits.len() - 1]);
                assert(outer.subrange(exits[i], exits[i] + 4) =~= inner.subrange(
                    before[i],
                    before[i] + 4,
                ));
            } else {
                assert(outer.subrange(last, last + 4) =~= patch);
            }
        }
        assert forall|at: int|
            0 <= at < code.len() && (forall|i: int|
                0 <= i < exits.len() ==> !(#[trigger] exits[i] <= at < exits[i] + 4))
                implies #[trigger] outer[at] == code[at] by {
            assert(!(exits[exits.len() - 1] <= at < exits[exits.len() - 1] + 4));
            assert forall|i: int| 0 <= i < before.len() implies !(#[trigger] before[i] <= at
                < before[i] + 4) by {
                assert(before[i] == exits[i]);
            }
            assert(inner[at] == code[at]);
        }
    }
}

/// Four bytes are four bytes.
pub proof fn lemma_le_bytes_len(value: int, count: nat)
    ensures
        le_bytes(value, count).len() == count,
    decreases count,
{
    if count > 0 {
        lemma_le_bytes_len(value / 256, (count - 1) as nat);
    }
}

/// Code under assembly: the assembler, the exits that wait for their label,
/// and whether a jump has failed to fit.
pub struct Assembly {
    ops: Assembler,
    exits: Vec<usize>,
    failed: bool,
}

impl View for Assembly {
    type V = Fragment;

    closed spec fn view(&self) -> Fragment {
        Fragment {
            code: assembled(self.ops),
            exits: Seq::new(self.exits@.len(), |i: int| self.exits@[i] as int),
            fits: !self.failed,
        }
    }
}

impl Assembly {
    /// Whether the assembly is valid: the four bytes of every exit are there.
    pub open spec fn wf(&self) -> bool {
        self@.fits ==> forall|i: int|
            0 <= i < self@.exits.len() ==> 0 <= #[trigger] self@.exits[i] && self@.exits[i] + 4
                <= self@.code.len()
    }

    /// An assembly without code, or nothing where the assembler cannot be
    /// had.
    pub fn new() -> (assembly: Option<Assembly>)
        ensures
            assembly matches Some(assembly) ==> assembly.wf() && assembly@ == plain(Seq::empty()),
    {
        Assembly::around(new_assembler())
    }

    /// The number of bytes assembled so far.
    pub fn offset(&self) -> (at: usize)
        ensures
            at == self@.code.len(),
    {
        offset(&self.ops)
    }

    /// Whether every jump so far has fitted.
    pub fn fits(&self) -> (fits: bool)
        ensures
            fits == self@.fits,
    {
        !self.failed
    }

    /// Appends `bytes`.
    pub fn extend(&mut self, bytes: &[u8])
        requires
            old(self).wf(),
        ensures
            final(self).wf(),
            final(self)@ == joined(old(self)@, plain(bytes@)),
    {
        extend(&mut self.ops, bytes);
        assert(self@.exits =~= joined(old(self)@, plain(bytes@)).exits);
    }

    /// Appends the four bytes of `value`, lowest first.
    pub fn push_i32(&mut self, value: i32)
        requires
            old(self).wf(),
        ensures
            final(self).wf(),
            final(self)@ == joined(old(self)@, plain(le_bytes(value as int, 4))),
    {
        push_i32(&mut self.ops, value);
        assert(self@.exits =~= joined(old(self)@, plain(le_bytes(value as int, 4))).exits);
    }

    /// Appends the eight bytes of `value`, lowest first.
    pub fn push_i64(&mut self, value: i64)
        requires
            old(self).wf(),
        ensures
            final(self).wf(),
            final(self)@ == joined(old(self)@, plain(le_bytes(value as int, 8))),
    {
        push_i64(&mut self.ops, value);
        assert(self@.exits =~= joined(old(self)@, plain(le_bytes(value as int, 8))).exits);
    }

    /// Writes the four bytes of `value`, lowest first, over the four bytes at
    /// `at`.
    pub fn patch_i32(&mut self, at: usize, value: i32)
        requires
            old(self).wf(),
            at + 4 <= old(self)@.code.len(),
        ensures
            final(self).wf(),
            final(self)@ == (Fragment {
                code: placed(old(self)@.code, at as int, le_bytes(value as int, 4)),
                ..old(self)@
            }),
    {
        patch_i32(&mut self.ops, at, value);
    }

    /// Appends an exit whose distance is yet to come: four bytes of zero, to
    /// be set when the label is known.
    pub fn push_exit(&mut self)
        requires
            old(self).wf(),
        ensures
            final(self).wf(),
            final(self)@ == joined(
                old(self)@,
                Fragment { code: le_bytes(0, 4), exits: seq![0int], fits: true },
            ),
    {
        let at = offset(&self.ops);
        push_i32(&mut self.ops, 0);
        self.exits.push(at);
        proof {
            lemma_le_bytes_len(0, 4);
            let exit = Fragment { code: le_bytes(0, 4), exits: seq![0int], fits: true };
            assert(self@.exits =~= joined(old(self)@, exit).exits);
        }
    }

    /// Sets every exit to jump to `label`, and forgets the exits.
    pub fn resolve(&mut self, label: usize)
        requires
            old(self).wf(),
        ensures
            final(self).wf(),
            final(self)@.fits == (old(self)@.fits && exits_fit(old(self)@.exits, label as int)),
            final(self)@.fits ==> final(self)@ == plain(
                resolved(old(self)@.code, old(self)@.exits, label as int),
            ),
    {
        if self.failed {
            return ;
        }
        let ghost before = self@;
        let mut i: usize = 0;
        assert(before.exits.take(0) =~= Seq::<int>::empty());
        while i < self.exits.len()
            invariant
                !self.failed,
                i <= self.exits.len(),
                before.fits,
                old(self).wf(),
                before == old(self)@,
                self@.exits == before.exits,
                self@.code.len() == before.code.len(),
                self@.code == resolved(before.code, before.exits.take(i as int), label as int),
                exits_fit(before.exits.take(i as int), label as int),
            decreases self.exits.len() - i,
        {
            let at = self.exits[i];
            assert(before.exits[i as int] == at);
            let distance: i128 = label as i128 - (at as i128 + 4);
            if distance > i32::MAX as i128 || distance < i32::MIN as i128 {
                self.failed = true;
                return ;
            }
            patch_i32(&mut self.ops, at, distance as i32);
            proof {
                assert(before.exits.take(i + 1).drop_last() =~= before.exits.take(i as int));
                assert(before.exits.take(i + 1).last() == at);
                let next = before.exits.take(i + 1);
                assert forall|j: int| 0 <= j < next.len() implies i32::MIN <= label - (
                #[trigger] next[j] + 4) <= i32::MAX by {
                    if j < i {
                        assert(next[j] == before.exits.take(i as int)[j]);
                    }
                }
            }
            i += 1;
        }
        assert(before.exits.take(i as int) =~= before.exits);
        self.exits = Vec::new();
        assert(self@.exits =~= Seq::<int>::empty());
    }

    /// Hands the code to executable memory. The assembler always gives its
    /// memory up, as nothing else shares it.
    pub fn finalize(self) -> (code: Option<dynasmrt::ExecutableBuffer>)
        ensures
            code is Some,
            buffer_bytes(code->Some_0) == self@.code,
    {
        finalize(self.ops)
    }

    /// Records that a jump does not fit.
    pub fn fail(&mut self)
        ensures
            final(self).wf(),
            final(self)@ == (Fragment { fits: false, ..old(self)@ }),
    {
        self.failed = true;
    }

    /// An assembly around what asking for an assembler came to: one that
    /// holds the bytes of the assembler, without an exit and with no jump
    /// failed, where there is an assembler, and nothing where there is none.
    pub fn around(ops: Option<Assembler>) -> (assembly: Option<Assembly>)
        ensures
            match ops {
                Some(ops) => assembly is Some && assembly->Some_0.wf() && assembly->Some_0@
                    == plain(assembled(ops)),
                None => assembly is None,
            },
    {
        match ops {
            Some(ops) => {
                let assembly = Assembly { ops, exits: Vec::new(), failed: false };
                assert(assembly@.exits =~= Seq::<int>::empty());
                Some(assembly)
            },
            None => None,
        }
    }
}

} // verus!
