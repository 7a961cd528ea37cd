//! What a list of packets says: which pairs are in the right order, and
//! where the two divider packets come among all of them.

use vstd::prelude::*;
use crate::day13::{lemma_packets, order, packets, Order, Packet, PacketNode};

verus! {

/// The sum of the numbers of those among the first `n` pairs whose left
/// packet comes before the right one, the pairs numbered from 1.
pub open spec fn ordered_sum(pairs: Seq<(PacketNode, PacketNode)>, n: int) -> nat
    decreases n,
{
    if n <= 0 {
        0
    } else {
        ordered_sum(pairs, n - 1) + if order(pairs[n - 1].0.packet(), pairs[n - 1].1.packet())
            == Order::Less {
            n as nat
        } else {
            0nat
        }
    }
}

/// The sum of the numbers of the pairs that are in the right order.
pub fn sum_of_ordered_pairs(pairs: &Vec<(PacketNode, PacketNode)>) -> (sum: u128)
    ensures
        sum == ordered_sum(pairs@, pairs@.len() as int),
{
    let mut sum: u128 = 0;
    let mut i: usize = 0;
    while i < pairs.len()
        invariant
            i <= pairs@.len(),
            sum == ordered_sum(pairs@, i as int),
            sum <= i * i,
        decreases pairs@.len() - i,
    {
        assert(i * i + i + 1 <= (i + 1) * (i + 1)) by (nonlinear_arith);
        assert(i * i <= usize::MAX * usize::MAX) by (nonlinear_arith)
            requires
                i <= usize::MAX,
        ;
        if matches!(pairs[i].0.compare(&pairs[i].1), Order::Less) {
            sum = sum + (i as u128 + 1);
        }
        i += 1;
    }
    sum
}

/// The divider packet with the number `n`: a list that holds a list that
/// holds `n`.
pub open spec fn divider_packet(n: u8) -> Packet {
    Packet::List(seq![Packet::List(seq![Packet::Int(n)])])
}

/// How many of the first `n` packets come before `d`.
pub open spec fn below(ps: Seq<Packet>, d: Packet, n: int) -> nat
    decreases n,
{
    if n <= 0 {
        0
    } else {
        below(ps, d, n - 1) + if order(ps[n - 1], d) == Order::Less {
            1nat
        } else {
            0nat
        }
    }
}

/// The packets as values of mathematics.
pub open spec fn values(packets: Seq<PacketNode>) -> Seq<Packet> {
    Seq::new(packets.len(), |i: int| packets[i].packet())
}

/// The place of `d` among the packets and the two dividers when they are
/// put in order, counted from 1: one more than the number of those that
/// come before it.
pub open spec fn place_of(ps: Seq<Packet>, d: Packet) -> nat {
    let all = ps.push(divider_packet(2)).push(divider_packet(6));
    below(all, d, all.len() as int) + 1
}

/// The product of the places of the two dividers.
pub open spec fn key_of(ps: Seq<Packet>) -> nat {
    place_of(ps, divider_packet(2)) * place_of(ps, divider_packet(6))
}

/// What comes after the first `n` packets does not change how many of
/// them come before `d`.
pub proof fn lemma_below_front(a: Seq<Packet>, b: Seq<Packet>, d: Packet, n: int)
    requires
        n <= a.len(),
        n <= b.len(),
        forall|i: int| 0 <= i < n ==> a[i] == b[i],
    ensures
        below(a, d, n) == below(b, d, n),
    decreases n,
{
    if n > 0 {
        lemma_below_front(a, b, d, n - 1);
    }
}

/// The divider packet with the number `n`.
pub fn divider(n: u8) -> (node: PacketNode)
    ensures
        node.packet() == divider_packet(n),
{
    let mut inner: Vec<PacketNode> = Vec::new();
    inner.push(PacketNode::Int(n));
    proof {
        lemma_packets(inner@, 1);
        assert(inner@[0].packet() == Packet::Int(n));
        assert(packets(inner@, 1) =~= seq![Packet::Int(n)]);
    }
    let list = PacketNode::List(inner);
    assert(list.packet() == Packet::List(seq![Packet::Int(n)]));
    let mut outer: Vec<PacketNode> = Vec::new();
    outer.push(list);
    proof {
        lemma_packets(outer@, 1);
        assert(packets(outer@, 1) =~= seq![Packet::List(seq![Packet::Int(n)])]);
    }
    PacketNode::List(outer)
}

/// How many of the packets come before `d`.
pub fn count_below(packets: &Vec<PacketNode>, d: &PacketNode) -> (count: usize)
    ensures
        count == below(values(packets@), d.packet(), packets@.len() as int),
{
    let mut count: usize = 0;
    let mut i: usize = 0;
    while i < packets.len()
        invariant
            i <= packets@.len(),
            count <= i,
            count == below(values(packets@), d.packet(), i as int),
        decreases packets@.len() - i,
    {
        if matches!(packets[i].compare(d), Order::Less) {
            count += 1;
        }
        i += 1;
    }
    count
}

/// The place of the divider `d` among the packets and the two dividers
/// put in order.
fn place_among(packets: &Vec<PacketNode>, d: &PacketNode) -> (place: u128)
    ensures
        place == place_of(values(packets@), d.packet()),
        place <= usize::MAX + 3,
{
    let first = divider(2);
    let second = divider(6);
    let mut place: u128 = count_below(packets, d) as u128 + 1;
    if matches!(first.compare(d), Order::Less) {
        place = place + 1;
    }
    if matches!(second.compare(d), Order::Less) {
        place = place + 1;
    }
    proof {
        let ps = values(packets@);
        let all = ps.push(divider_packet(2)).push(divider_packet(6));
        let n = ps.len() as int;
        lemma_below_front(ps, all, d.packet(), n);
        assert(below(all, d.packet(), n + 2) == below(all, d.packet(), n + 1) + if order(
            all[n + 1],
            d.packet(),
        ) == Order::Less {
            1nat
        } else {
            0nat
        });
        assert(below(all, d.packet(), n + 1) == below(all, d.packet(), n) + if order(
            all[n],
            d.packet(),
        ) == Order::Less {
            1nat
        } else {
            0nat
        });
    }
    place
}

/// The product of the places that the two dividers take among the packets
/// when all are put in order; `None` if it does not fit.
pub fn decoder_key(packets: &Vec<PacketNode>) -> (key: Option<u128>)
    ensures
        key == if key_of(values(packets@)) <= u128::MAX {
            Some(key_of(values(packets@)) as u128)
        } else {
            None
        },
{
    let first = place_among(packets, &divider(2));
    let second = place_among(packets, &divider(6));
    first.checked_mul(second)
}

} // verus!
