//! The cycle meter: a fixed budget per frame, a fixed price per unit of
//! work, never host time. The core owns the accounting and the price
//! list; a guest charges through it from every binding and from its
//! instruction hook, and reads the profile out at the end of a step.

pub mod costs;
pub mod price;

use vstd::prelude::*;
use vstd::string::*;
use crate::fault::Fault;
use crate::text::{dec, push_dec};

verus! {

/// Cycles one frame may spend: 2^24 per second at 60 Hz, kept until the
/// device is profiled.
pub const FRAME_BUDGET: u64 = 279_620;

/// Cycles the main chunk plus `_init` may spend together: one second.
pub const INIT_BUDGET: u64 = 60 * FRAME_BUDGET;

/// Instructions between count-hook fires.
pub const HOOK_INTERVAL: u32 = 1000;

/// Cycles per Lua VM instruction.
pub const CYCLES_PER_INSTRUCTION: u64 = 2;

/// What one hook fire charges.
pub const HOOK_CHARGE: u64 = 2000;

/// Where cycles went. The order is the order of the profile arrays.
#[derive(Debug, Clone, Copy, PartialEq, Eq, Structural)]
pub enum Category {
    /// VM instructions, counted by the hook.
    Lua,
    /// Shapes, sprites and maps, by pixels touched.
    Draw,
    /// `print` in its drawing form.
    Text,
    /// Buffer allocation, fills and copies.
    Buf,
    /// Sheet and map decoding, `require` compilation.
    Asset,
    /// Priced native string and table functions.
    Str,
    /// Everything else: state changes, `btn`, `stat`, logging.
    Api,
}

pub const CATEGORY_COUNT: usize = 7;

impl Category {
    /// Its place in the profile arrays.
    pub open spec fn place(self) -> int {
        match self {
            Category::Lua => 0,
            Category::Draw => 1,
            Category::Text => 2,
            Category::Buf => 3,
            Category::Asset => 4,
            Category::Str => 5,
            Category::Api => 6,
        }
    }

    /// Its name in reports.
    pub open spec fn title(self) -> &'static str {
        match self {
            Category::Lua => "lua",
            Category::Draw => "draw",
            Category::Text => "text",
            Category::Buf => "buf",
            Category::Asset => "asset",
            Category::Str => "string",
            Category::Api => "api",
        }
    }

    /// Every category, in the order of the profile arrays.
    pub fn all() -> (v: [Category; CATEGORY_COUNT])
        ensures
            forall|i: int| 0 <= i < 7 ==> (#[trigger] v@[i]).place() == i,
    {
        [
            Category::Lua,
            Category::Draw,
            Category::Text,
            Category::Buf,
            Category::Asset,
            Category::Str,
            Category::Api,
        ]
    }

    pub fn name(self) -> (s: &'static str)
        ensures
            s@ == self.title()@,
    {
        match self {
            Category::Lua => "lua",
            Category::Draw => "draw",
            Category::Text => "text",
            Category::Buf => "buf",
            Category::Asset => "asset",
            Category::Str => "string",
            Category::Api => "api",
        }
    }

    pub fn index(self) -> (i: usize)
        ensures
            i == self.place(),
            i < CATEGORY_COUNT,
    {
        match self {
            Category::Lua => 0,
            Category::Draw => 1,
            Category::Text => 2,
            Category::Buf => 3,
            Category::Asset => 4,
            Category::Str => 5,
            Category::Api => 6,
        }
    }
}

/// `n`, or the largest `u64` when it does not fit.
pub open spec fn saturate(n: int) -> u64 {
    if n > u64::MAX {
        u64::MAX
    } else {
        n as u64
    }
}

/// The sum of a sequence of counters.
pub open spec fn sum(s: Seq<u64>) -> int
    decreases s.len(),
{
    if s.len() == 0 {
        0
    } else {
        sum(s.drop_last()) + s.last()
    }
}

pub proof fn lemma_sum_nonneg(s: Seq<u64>)
    ensures
        0 <= sum(s),
    decreases s.len(),
{
    if s.len() > 0 {
        lemma_sum_nonneg(s.drop_last());
    }
}

pub proof fn lemma_sum_update(s: Seq<u64>, i: int, v: u64)
    requires
        0 <= i < s.len(),
    ensures
        sum(s.update(i, v)) == sum(s) - s[i] + v,
    decreases s.len(),
{
    let t = s.update(i, v);
    if i == s.len() - 1 {
        assert(t.drop_last() =~= s.drop_last());
    } else {
        assert(t.drop_last() =~= s.drop_last().update(i, v));
        lemma_sum_update(s.drop_last(), i, v);
    }
}

fn saturating_total(counters: &[u64; CATEGORY_COUNT]) -> (n: u64)
    ensures
        n == saturate(sum(counters@)),
{
    let mut n: u64 = 0;
    let mut i: usize = 0;
    while i < CATEGORY_COUNT
        invariant
            i <= CATEGORY_COUNT,
            n == saturate(sum(counters@.take(i as int))),
            0 <= sum(counters@.take(i as int)),
        decreases CATEGORY_COUNT - i,
    {
        assert(counters@.take(i + 1).drop_last() =~= counters@.take(i as int));
        n = n.saturating_add(counters[i]);
        i += 1;
    }
    assert(counters@.take(7) =~= counters@);
    n
}

/// The cycles one frame spent, by category, with the budget it had and
/// the guest heap after the step. Part of every frame's output.
#[derive(Debug, Clone, Copy, PartialEq, Eq)]
pub struct FrameProfile {
    pub cycles: [u64; CATEGORY_COUNT],
    pub budget: u64,
    /// Bytes the guest's own heap held after the step, 0 for a guest
    /// without one.
    pub lua_mem: u64,
}

impl Default for FrameProfile {
    fn default() -> (p: FrameProfile)
        ensures
            p.cycles@ == Seq::new(7, |i: int| 0u64),
            p.budget == 0,
            p.lua_mem == 0,
    {
        let cycles: [u64; CATEGORY_COUNT] = [0, 0, 0, 0, 0, 0, 0];
        assert(cycles@ =~= Seq::new(7, |i: int| 0u64));
        FrameProfile { cycles, budget: 0, lua_mem: 0 }
    }
}

impl FrameProfile {
    pub fn total(&self) -> (n: u64)
        ensures
            n == saturate(sum(self.cycles@)),
    {
        saturating_total(&self.cycles)
    }

    pub fn get(&self, c: Category) -> (n: u64)
        ensures
            n == self.cycles@[c.place()],
    {
        self.cycles[c.index()]
    }
}

/// The budget was spent. Carries what a fault message needs.
#[derive(Debug, Clone, PartialEq, Eq)]
pub struct BudgetExceeded {
    pub callback: &'static str,
    pub used: u64,
    pub budget: u64,
}

impl BudgetExceeded {
    /// `<callback> used <used> of <budget> cycles`.
    pub open spec fn words(self) -> Seq<char> {
        self.callback@ + " used "@ + dec(self.used as nat) + " of "@ + dec(self.budget as nat)
            + " cycles"@
    }

    pub fn message(&self) -> (s: String)
        ensures
            s@ == self.words(),
    {
        let mut s = self.callback.to_owned();
        s.append(" used ");
        push_dec(&mut s, self.used);
        s.append(" of ");
        push_dec(&mut s, self.budget);
        s.append(" cycles");
        s
    }

    /// The fault code, then the message.
    pub fn text(&self) -> (s: String)
        ensures
            s@ == Fault::BUDGET_EXCEEDED@ + ": "@ + self.words(),
    {
        let mut s = Fault::BUDGET_EXCEEDED.to_owned();
        s.append(": ");
        s.append(self.message().as_str());
        s
    }
}

/// Per-frame accounting. `charge` is the only way cycles are spent; it
/// fails at the charge that crosses the budget, and once the caller has
/// recorded the fault the meter is dead and counts silently.
#[derive(Debug, Clone)]
pub struct Meter {
    used: [u64; CATEGORY_COUNT],
    budget: u64,
    callback: &'static str,
    dead: Option<Fault>,
}

/// What a meter holds: the cycles spent by category, the budget, the
/// entry point being run, and the terminal fault if one was recorded.
pub struct MeterView {
    pub used: Seq<u64>,
    pub budget: u64,
    pub callback: Seq<char>,
    pub dead: Option<Fault>,
}

/// A call that changes a meter.
pub enum MeterCall {
    Begin(u64),
    Callback(Seq<char>),
    Charge(Category, u64),
    Kill(Fault),
}

impl View for Meter {
    type V = MeterView;

    closed spec fn view(&self) -> MeterView {
        MeterView {
            used: self.used@,
            budget: self.budget,
            callback: self.callback@,
            dead: self.dead,
        }
    }
}

impl MeterView {
    /// The cycles spent, as far as they fit.
    pub open spec fn total(self) -> u64 {
        saturate(sum(self.used))
    }

    /// The meter after a charge: never less than one cycle.
    pub open spec fn charged(self, cat: Category, n: u64) -> MeterView {
        let add: int = if n == 0 { 1 } else { n as int };
        MeterView {
            used: self.used.update(cat.place(), saturate(self.used[cat.place()] + add)),
            ..self
        }
    }

    /// Whether a charge crosses the budget of a meter that is alive.
    pub open spec fn trips(self, cat: Category, n: u64) -> bool {
        self.total() <= self.budget < self.charged(cat, n).total() && self.dead is None
    }

    /// The meter after a call.
    pub open spec fn with(self, c: MeterCall) -> MeterView {
        match c {
            MeterCall::Begin(budget) => self.begun(budget),
            MeterCall::Callback(name) => MeterView { callback: name, ..self },
            MeterCall::Charge(cat, n) => self.charged(cat, n),
            MeterCall::Kill(fault) => self.killed(fault),
        }
    }

    /// The meter after the first `k` of some calls.
    pub open spec fn after(self, calls: Seq<MeterCall>, k: int) -> MeterView
        decreases k,
    {
        if k <= 0 {
            self
        } else {
            self.after(calls, k - 1).with(calls[k - 1])
        }
    }

    /// Whether a call of a list is a charge that fails.
    pub open spec fn fails(self, calls: Seq<MeterCall>, i: int) -> bool {
        calls[i] matches MeterCall::Charge(cat, n) && self.after(calls, i).trips(cat, n)
    }

    /// The meter at the start of a frame.
    pub open spec fn begun(self, budget: u64) -> MeterView {
        MeterView { used: Seq::new(7, |i: int| 0u64), budget, ..self }
    }

    /// The meter after a terminal fault: the first one wins.
    pub open spec fn killed(self, fault: Fault) -> MeterView {
        MeterView { dead: if self.dead is None { Some(fault) } else { self.dead }, ..self }
    }
}

impl Default for Meter {
    fn default() -> (m: Meter)
        ensures
            m@.used == Seq::new(7, |i: int| 0u64),
            m@.budget == FRAME_BUDGET,
            m@.callback == Seq::<char>::empty(),
            m@.dead is None,
    {
        Meter::new()
    }
}

impl Meter {
    pub fn new() -> (m: Meter)
        ensures
            m@.used == Seq::new(7, |i: int| 0u64),
            m@.budget == FRAME_BUDGET,
            m@.callback == Seq::<char>::empty(),
            m@.dead is None,
    {
        let used: [u64; CATEGORY_COUNT] = [0, 0, 0, 0, 0, 0, 0];
        assert(used@ =~= Seq::new(7, |i: int| 0u64));
        proof {
            reveal_strlit("");
        }
        assert(""@ =~= Seq::<char>::empty());
        Meter { used, budget: FRAME_BUDGET, callback: "", dead: None }
    }

    /// Start a frame: zero the counters and set its budget.
    pub fn begin_frame(&mut self, budget: u64)
        ensures
            final(self)@ == old(self)@.begun(budget),
    {
        self.used = [0, 0, 0, 0, 0, 0, 0];
        self.budget = budget;
        assert(self.used@ =~= Seq::new(7, |i: int| 0u64));
    }

    /// Name the entry point being run, for the fault message.
    pub fn set_callback(&mut self, name: &'static str)
        ensures
            final(self)@ == old(self)@.with(MeterCall::Callback(name@)),
    {
        self.callback = name;
    }

    pub fn callback(&self) -> (s: &'static str)
        ensures
            s@ == self@.callback,
    {
        self.callback
    }

    pub fn budget(&self) -> (n: u64)
        ensures
            n == self@.budget,
    {
        self.budget
    }

    pub fn total(&self) -> (n: u64)
        ensures
            n == self@.total(),
    {
        saturating_total(&self.used)
    }

    /// Spend `n` cycles (at least 1) in `cat`. The error is returned once,
    /// at the charge that crosses the budget; afterwards the caller records
    /// the fault, and must check [`Meter::fault`] before doing work.
    pub fn charge(&mut self, cat: Category, n: u64) -> (r: Result<(), BudgetExceeded>)
        ensures
            final(self)@ == old(self)@.charged(cat, n),
            r is Err <==> old(self)@.trips(cat, n),
            r matches Err(e) ==> e.callback@ == old(self)@.callback && e.used
                == final(self)@.total() && e.budget == old(self)@.budget,
    {
        let n: u64 = if n < 1 { 1 } else { n };
        let i = cat.index();
        let before = self.total();
        self.used[i] = self.used[i].saturating_add(n);
        assert(self.used@ =~= old(self)@.charged(cat, n).used);
        let total = self.total();
        if before <= self.budget && total > self.budget && self.dead.is_none() {
            return Err(
                BudgetExceeded { callback: self.callback, used: total, budget: self.budget },
            );
        }
        Ok(())
    }

    /// Whether a terminal fault has been recorded.
    pub fn is_dead(&self) -> (b: bool)
        ensures
            b == (self@.dead is Some),
    {
        self.dead.is_some()
    }

    /// Record the terminal fault. The first one wins.
    pub fn kill(&mut self, fault: Fault)
        ensures
            final(self)@ == old(self)@.killed(fault),
    {
        if self.dead.is_none() {
            self.dead = Some(fault);
        }
    }

    pub fn fault(&self) -> (f: Option<&Fault>)
        ensures
            f is Some <==> self@.dead is Some,
            f matches Some(x) ==> *x == self@.dead->0,
    {
        self.dead.as_ref()
    }

    pub fn profile(&self, lua_mem: u64) -> (p: FrameProfile)
        ensures
            p.cycles@ == self@.used,
            p.budget == self@.budget,
            p.lua_mem == lua_mem,
    {
        FrameProfile { cycles: self.used, budget: self.budget, lua_mem }
    }
}

/// Every charge is felt: unless the counters are saturated, the total
/// grows by the price, and by at least one cycle.
pub proof fn law_no_charge_is_free(m: MeterView, cat: Category, n: u64)
    requires
        m.used.len() == 7,
        sum(m.used) + n < u64::MAX,
    ensures
        m.charged(cat, n).total() == m.total() + (if n == 0 {
            1
        } else {
            n as int
        }),
        m.charged(cat, n).total() > m.total(),
{
    let i = cat.place();
    let add: int = if n == 0 { 1 } else { n as int };
    lemma_sum_update(m.used, i, 0);
    lemma_sum_nonneg(m.used.update(i, 0));
    lemma_sum_nonneg(m.used);
    assert(m.used[i] + add <= u64::MAX);
    lemma_sum_update(m.used, i, saturate(m.used[i] + add));
}

/// Within a frame nothing is given back, the budget stands, and the meter
/// dies only of a kill.
proof fn lemma_within(m: MeterView, calls: Seq<MeterCall>, j: int, k: int)
    requires
        m.used.len() == 7,
        0 <= j <= k <= calls.len(),
        forall|i: int| 0 <= i < k ==> !((#[trigger] calls[i]) is Begin),
    ensures
        m.after(calls, k).used.len() == 7,
        m.after(calls, k).budget == m.budget,
        m.after(calls, j).total() <= m.after(calls, k).total(),
        (forall|i: int| 0 <= i < k ==> !((#[trigger] calls[i]) is Kill)) ==> m.after(calls, k).dead
            == m.dead,
    decreases k,
{
    if k > 0 {
        let a = m.after(calls, k - 1);
        lemma_within(m, calls, if j < k { j } else { k - 1 }, k - 1);
        if let MeterCall::Charge(cat, n) = calls[k - 1] {
            let i = cat.place();
            lemma_sum_update(a.used, i, a.charged(cat, n).used[i]);
            lemma_sum_nonneg(a.used);
        }
        assert(!(calls[k - 1] is Begin));
    }
}

/// However a frame's cycles are spent, at most one charge fails: once one
/// crossed the budget every later one of the frame is counted silently.
pub proof fn law_a_frame_trips_once(
    m: MeterView,
    budget: u64,
    calls: Seq<MeterCall>,
    i: int,
    j: int,
)
    requires
        0 <= i < j < calls.len(),
        forall|k: int| 0 <= k < j ==> !((#[trigger] calls[k]) is Begin),
        m.begun(budget).fails(calls, i),
    ensures
        !m.begun(budget).fails(calls, j),
{
    let b = m.begun(budget);
    lemma_within(b, calls, i + 1, j);
    lemma_within(b, calls, 0, i);
    lemma_within(b, calls, 0, i + 1);
}

/// The charge that crosses the budget fails: a frame of a meter that is
/// alive does not go over its budget unnoticed.
pub proof fn law_the_crossing_charge_fails(
    m: MeterView,
    budget: u64,
    calls: Seq<MeterCall>,
    k: int,
)
    requires
        0 <= k <= calls.len(),
        m.dead is None,
        forall|i: int| 0 <= i < k ==> !((#[trigger] calls[i]) is Begin) && !(calls[i] is Kill),
        m.begun(budget).after(calls, k).total() > budget,
    ensures
        exists|i: int| 0 <= i < k && #[trigger] m.begun(budget).fails(calls, i),
    decreases k,
{
    let b = m.begun(budget);
    if k == 0 {
        lemma_sum_zeros(7);
    } else {
        lemma_within(b, calls, k - 1, k - 1);
        if b.after(calls, k - 1).total() > budget {
            law_the_crossing_charge_fails(m, budget, calls, k - 1);
        } else {
            assert(!(calls[k - 1] is Begin) && !(calls[k - 1] is Kill));
            assert(b.fails(calls, k - 1));
        }
    }
}

proof fn lemma_sum_zeros(n: nat)
    ensures
        sum(Seq::new(n, |i: int| 0u64)) == 0,
    decreases n,
{
    let s = Seq::new(n, |i: int| 0u64);
    if n > 0 {
        lemma_sum_zeros((n - 1) as nat);
        assert(s.drop_last() =~= Seq::new((n - 1) as nat, |i: int| 0u64));
    }
}

/// A fault kills the meter and changes nothing else, and death is final:
/// the first fault stays, whatever is called later.
pub proof fn law_death_is_final(m: MeterView, fault: Fault, calls: Seq<MeterCall>, k: int)
    requires
        0 <= k <= calls.len(),
    ensures
        m.killed(fault).dead == Some(
            match m.dead {
                Some(first) => first,
                None => fault,
            },
        ),
        m.killed(fault).total() == m.total(),
        m.killed(fault).budget == m.budget,
        m.killed(fault).callback == m.callback,
        m.killed(fault).after(calls, k).dead == m.killed(fault).dead,
    decreases k,
{
    if k > 0 {
        law_death_is_final(m, fault, calls, k - 1);
    }
}

} // verus!
