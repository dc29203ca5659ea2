//! Sums in lanes: each lane sums the components that stand at its place in every full register,
//! multiplying and adding in one rounding.
use vstd::prelude::*;
use crate::distance::scalar::l2_step;
use crate::distance::single::F32;

verus! {

/// The sum of a lane's squared differences over the first registers.
pub open spec fn l2_lane(
    a: Seq<F32>,
    b: Seq<F32>,
    width: nat,
    registers: nat,
    lane: int,
) -> F32
    decreases registers,
{
    if registers == 0 {
        F32(0)
    } else {
        let at = (registers - 1) * width + lane;
        let d = a[at].less(b[at]);
        d.fused(d, l2_lane(a, b, width, (registers - 1) as nat, lane))
    }
}

/// The sum of a lane's products over the first registers.
pub open spec fn dot_lane(
    a: Seq<F32>,
    b: Seq<F32>,
    width: nat,
    registers: nat,
    lane: int,
) -> F32
    decreases registers,
{
    if registers == 0 {
        F32(0)
    } else {
        let at = (registers - 1) * width + lane;
        a[at].fused(b[at], dot_lane(a, b, width, (registers - 1) as nat, lane))
    }
}

/// The lanes' sums of squared differences over all full registers.
pub open spec fn l2_lanes_of(a: Seq<F32>, b: Seq<F32>, width: nat) -> Seq<F32> {
    Seq::new(width, |lane: int| l2_lane(a, b, width, a.len() / width, lane))
}

/// The lanes' sums of products over all full registers.
pub open spec fn dot_lanes_of(a: Seq<F32>, b: Seq<F32>, width: nat) -> Seq<F32> {
    Seq::new(width, |lane: int| dot_lane(a, b, width, a.len() / width, lane))
}

/// What follows the full registers.
pub open spec fn rest_of(a: Seq<F32>, width: nat) -> Seq<F32> {
    a.skip((a.len() / width * width) as int)
}

/// A sum to which the squared differences are added, first to last.
pub open spec fn l2_onto(start: F32, a: Seq<F32>, b: Seq<F32>) -> F32
    decreases a.len(),
{
    if a.len() == 0 {
        start
    } else {
        let d = a.last().less(b.last());
        l2_onto(start, a.drop_last(), b.drop_last()).plus(d.times(d))
    }
}

/// A sum to which the products are added, first to last.
pub open spec fn dot_onto(start: F32, a: Seq<F32>, b: Seq<F32>) -> F32
    decreases a.len(),
{
    if a.len() == 0 {
        start
    } else {
        dot_onto(start, a.drop_last(), b.drop_last()).plus(a.last().times(b.last()))
    }
}

/// The upper half of the lanes added to the lower.
pub open spec fn halved(lanes: Seq<F32>) -> Seq<F32> {
    Seq::new(lanes.len() / 2, |i: int| lanes[i].plus(lanes[i + lanes.len() / 2]))
}

/// The sum of sixteen lanes, by halves.
pub open spec fn folded(lanes: Seq<F32>) -> F32 {
    halved(halved(halved(halved(lanes))))[0]
}

/// The full registers end inside the vector.
pub proof fn lemma_registers(n: nat, width: nat)
    requires
        width > 0,
    ensures
        n / width * width <= n < n / width * width + width,
{
    vstd::arithmetic::div_mod::lemma_fundamental_div_mod(n as int, width as int);
    assert(n / width * width == width * (n / width)) by (nonlinear_arith);
    assert(n as int / width as int == n / width);
    assert(0 <= n as int % width as int && (n as int % width as int) < width);
}

/// A place in a full register is a place in the vector.
proof fn lemma_in_register(n: nat, width: nat, i: nat, lane: nat)
    requires
        width > 0,
        i < n / width,
        lane < width,
    ensures
        i * width + lane < n,
{
    lemma_registers(n, width);
    assert(i * width + width <= n / width * width) by (nonlinear_arith)
        requires
            i + 1 <= n / width,
    ;
}

/// The lanes' sums of squared differences over all full registers.
pub(crate) fn l2_lanes(a: &[F32], b: &[F32], width: usize) -> (lanes: Vec<F32>)
    requires
        a@.len() == b@.len(),
        width > 0,
    ensures
        lanes@ == l2_lanes_of(a@, b@, width as nat),
{
    let n: usize = a.len();
    let registers: usize = n / width;
    let mut lanes: Vec<F32> = Vec::with_capacity(width);
    let mut lane: usize = 0;
    while lane < width
        invariant
            lane <= width,
            width > 0,
            n == a@.len() == b@.len(),
            registers == n as nat / width as nat,
            lanes@ == l2_lanes_of(a@, b@, width as nat).take(lane as int),
        decreases width - lane,
    {
        let mut sum: F32 = F32(0);
        let mut i: usize = 0;
        while i < registers
            invariant
                i <= registers,
                lane < width,
                n == a@.len() == b@.len(),
                registers == n as nat / width as nat,
                sum == l2_lane(a@, b@, width as nat, i as nat, lane as int),
            decreases registers - i,
        {
            proof {
                lemma_in_register(n as nat, width as nat, i as nat, lane as nat);
                assert(0 <= i * width) by (nonlinear_arith);
            }
            let at: usize = i * width + lane;
            let d = a[at].sub(b[at]);
            sum = d.mul_add(d, sum);
            i += 1;
        }
        lanes.push(sum);
        lane += 1;
        assert(lanes@ =~= l2_lanes_of(a@, b@, width as nat).take(lane as int));
    }
    assert(lanes@ =~= l2_lanes_of(a@, b@, width as nat));
    lanes
}

/// The lanes' sums of products over all full registers.
pub(crate) fn dot_lanes(a: &[F32], b: &[F32], width: usize) -> (lanes: Vec<F32>)
    requires
        a@.len() == b@.len(),
        width > 0,
    ensures
        lanes@ == dot_lanes_of(a@, b@, width as nat),
{
    let n: usize = a.len();
    let registers: usize = n / width;
    let mut lanes: Vec<F32> = Vec::with_capacity(width);
    let mut lane: usize = 0;
    while lane < width
        invariant
            lane <= width,
            width > 0,
            n == a@.len() == b@.len(),
            registers == n as nat / width as nat,
            lanes@ == dot_lanes_of(a@, b@, width as nat).take(lane as int),
        decreases width - lane,
    {
        let mut sum: F32 = F32(0);
        let mut i: usize = 0;
        while i < registers
            invariant
                i <= registers,
                lane < width,
                n == a@.len() == b@.len(),
                registers == n as nat / width as nat,
                sum == dot_lane(a@, b@, width as nat, i as nat, lane as int),
            decreases registers - i,
        {
            proof {
                lemma_in_register(n as nat, width as nat, i as nat, lane as nat);
                assert(0 <= i * width) by (nonlinear_arith);
            }
            let at: usize = i * width + lane;
            sum = a[at].mul_add(b[at], sum);
            i += 1;
        }
        lanes.push(sum);
        lane += 1;
        assert(lanes@ =~= dot_lanes_of(a@, b@, width as nat).take(lane as int));
    }
    assert(lanes@ =~= dot_lanes_of(a@, b@, width as nat));
    lanes
}

/// Adds the squared differences that follow the full registers.
pub(crate) fn add_l2_rest(start: F32, a: &[F32], b: &[F32], width: usize) -> (s: F32)
    requires
        a@.len() == b@.len(),
        width > 0,
    ensures
        s == l2_onto(start, rest_of(a@, width as nat), rest_of(b@, width as nat)),
{
    let n: usize = a.len();
    proof {
        lemma_registers(n as nat, width as nat);
    }
    let whole: usize = n / width * width;
    let ghost x = rest_of(a@, width as nat);
    let ghost y = rest_of(b@, width as nat);
    let mut sum = start;
    let mut i: usize = whole;
    assert(x.take(0) =~= Seq::empty());
    while i < n
        invariant
            n == a@.len() == b@.len(),
            whole <= i <= n,
            x == a@.skip(whole as int),
            y == b@.skip(whole as int),
            sum == l2_onto(start, x.take(i - whole), y.take(i - whole)),
        decreases n - i,
    {
        sum = l2_step(sum, a[i], b[i]);
        i += 1;
        assert(x.take(i - whole).drop_last() =~= x.take(i - 1 - whole));
        assert(y.take(i - whole).drop_last() =~= y.take(i - 1 - whole));
    }
    assert(x.take(i - whole) =~= x);
    assert(y.take(i - whole) =~= y);
    sum
}

/// Adds the products that follow the full registers.
pub(crate) fn add_dot_rest(start: F32, a: &[F32], b: &[F32], width: usize) -> (s: F32)
    requires
        a@.len() == b@.len(),
        width > 0,
    ensures
        s == dot_onto(start, rest_of(a@, width as nat), rest_of(b@, width as nat)),
{
    let n: usize = a.len();
    proof {
        lemma_registers(n as nat, width as nat);
    }
    let whole: usize = n / width * width;
    let ghost x = rest_of(a@, width as nat);
    let ghost y = rest_of(b@, width as nat);
    let mut sum = start;
    let mut i: usize = whole;
    assert(x.take(0) =~= Seq::empty());
    while i < n
        invariant
            n == a@.len() == b@.len(),
            whole <= i <= n,
            x == a@.skip(whole as int),
            y == b@.skip(whole as int),
            sum == dot_onto(start, x.take(i - whole), y.take(i - whole)),
        decreases n - i,
    {
        sum = sum.add(a[i].mul(b[i]));
        i += 1;
        assert(x.take(i - whole).drop_last() =~= x.take(i - 1 - whole));
        assert(y.take(i - whole).drop_last() =~= y.take(i - 1 - whole));
    }
    assert(x.take(i - whole) =~= x);
    assert(y.take(i - whole) =~= y);
    sum
}

/// The upper half of the lanes added to the lower.
fn halve(lanes: &Vec<F32>) -> (h: Vec<F32>)
    ensures
        h@ == halved(lanes@),
{
    let total: usize = lanes.len();
    let half: usize = total / 2;
    let mut h: Vec<F32> = Vec::with_capacity(half);
    let mut i: usize = 0;
    while i < half
        invariant
            i <= half,
            total == lanes@.len(),
            half == total / 2,
            h@ == halved(lanes@).take(i as int),
        decreases half - i,
    {
        h.push(lanes[i].add(lanes[i + half]));
        i += 1;
        assert(h@ =~= halved(lanes@).take(i as int));
    }
    assert(h@ =~= halved(lanes@));
    h
}

/// The sum of sixteen lanes, by halves.
pub(crate) fn fold(lanes: &Vec<F32>) -> (s: F32)
    requires
        lanes@.len() == 16,
    ensures
        s == folded(lanes@),
{
    let eight = halve(lanes);
    let four = halve(&eight);
    let two = halve(&four);
    let one = halve(&two);
    one[0]
}

} // verus!
