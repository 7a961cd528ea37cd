//! Packets: numbers and lists of packets, read from text and put in order.

use vstd::prelude::*;
use vstd::string::StringSliceAdditionalSpecFns;

pub mod signal;

verus! {

/// A packet: a number, or a list of packets.
#[derive(Debug)]
pub enum PacketNode {
    Int(u8),
    List(Vec<PacketNode>),
}

/// A packet as a value of mathematics.
pub enum Packet {
    Int(u8),
    List(Seq<Packet>),
}

/// How one packet stands to another.
#[derive(Debug, Clone, Copy, PartialEq, Eq, Structural)]
pub enum Order {
    Less,
    Equal,
    Greater,
}

impl PacketNode {
    /// The packet as a value of mathematics.
    pub open spec fn packet(self) -> Packet
        decreases self,
    {
        match self {
            PacketNode::Int(n) => Packet::Int(n),
            PacketNode::List(v) => Packet::List(packets(v@, v@.len())),
        }
    }
}

/// The first `n` of the packets as values of mathematics.
pub open spec fn packets(v: Seq<PacketNode>, n: nat) -> Seq<Packet>
    decreases v, n,
{
    if n == 0 || n > v.len() {
        Seq::empty()
    } else {
        packets(v, (n - 1) as nat).push(v[n - 1].packet())
    }
}

/// The packets of a list, one by one.
pub proof fn lemma_packets(v: Seq<PacketNode>, n: nat)
    requires
        n <= v.len(),
    ensures
        packets(v, n).len() == n,
        forall|i: int| 0 <= i < n ==> #[trigger] packets(v, n)[i] == v[i].packet(),
    decreases n,
{
    if n > 0 {
        lemma_packets(v, (n - 1) as nat);
    }
}

/// How two numbers stand to each other.
pub open spec fn number_order(l: int, r: int) -> Order {
    if l < r {
        Order::Less
    } else if l == r {
        Order::Equal
    } else {
        Order::Greater
    }
}

/// How the packet `l` stands to the packet `r`: numbers as numbers, lists
/// by the first packets in which they differ or, where they do not, by
/// their lengths, and a number against a list as the list of that number
/// alone.
pub open spec fn order(l: Packet, r: Packet) -> Order
    decreases l, r, 1int,
{
    match (l, r) {
        (Packet::Int(a), Packet::Int(b)) => number_order(a as int, b as int),
        (Packet::List(ls), Packet::List(rs)) => list_order(ls, rs, 0),
        (Packet::List(ls), Packet::Int(b)) => if ls.len() == 0 {
            Order::Less
        } else {
            let first = order(ls[0], r);
            if first != Order::Equal {
                first
            } else {
                number_order(ls.len() as int, 1)
            }
        },
        (Packet::Int(a), Packet::List(rs)) => if rs.len() == 0 {
            Order::Greater
        } else {
            let first = order(l, rs[0]);
            if first != Order::Equal {
                first
            } else {
                number_order(1, rs.len() as int)
            }
        },
    }
}

/// How the list `ls` stands to the list `rs` from place `from` on.
pub open spec fn list_order(ls: Seq<Packet>, rs: Seq<Packet>, from: int) -> Order
    decreases ls, rs, 0int, ls.len() - from,
{
    if from < 0 {
        Order::Equal
    } else if from >= ls.len() || from >= rs.len() {
        number_order(ls.len() as int, rs.len() as int)
    } else {
        let first = order(ls[from], rs[from]);
        if first != Order::Equal {
            first
        } else {
            list_order(ls, rs, from + 1)
        }
    }
}

impl PacketNode {
    /// How the packet stands to the other.
    pub fn compare(&self, other: &PacketNode) -> (o: Order)
        ensures
            o == order(self.packet(), other.packet()),
        decreases *self, *other,
    {
        match (self, other) {
            (PacketNode::Int(l), PacketNode::Int(r)) => {
                if *l < *r {
                    Order::Less
                } else if *l == *r {
                    Order::Equal
                } else {
                    Order::Greater
                }
            },
            (PacketNode::List(ls), PacketNode::List(rs)) => {
                proof {
                    lemma_packets(ls@, ls@.len());
                    lemma_packets(rs@, rs@.len());
                }
                let mut i: usize = 0;
                while i < ls.len() && i < rs.len()
                    invariant
                        i <= ls@.len(),
                        i <= rs@.len(),
                        *self == PacketNode::List(*ls),
                        *other == PacketNode::List(*rs),
                        packets(ls@, ls@.len()).len() == ls@.len(),
                        packets(rs@, rs@.len()).len() == rs@.len(),
                        forall|k: int|
                            0 <= k < ls@.len() ==> #[trigger] packets(ls@, ls@.len())[k]
                                == ls@[k].packet(),
                        forall|k: int|
                            0 <= k < rs@.len() ==> #[trigger] packets(rs@, rs@.len())[k]
                                == rs@[k].packet(),
                        list_order(packets(ls@, ls@.len()), packets(rs@, rs@.len()), 0)
                            == list_order(
                            packets(ls@, ls@.len()),
                            packets(rs@, rs@.len()),
                            i as int,
                        ),
                    decreases ls@.len() - i,
                {
                    let child_ordering = ls[i].compare(&rs[i]);
                    if child_ordering != Order::Equal {
                        return child_ordering;
                    }
                    i += 1;
                }
                if ls.len() < rs.len() {
                    Order::Less
                } else if ls.len() == rs.len() {
                    Order::Equal
                } else {
                    Order::Greater
                }
            },
            (PacketNode::List(ls), PacketNode::Int(_)) => {
                proof {
                    lemma_packets(ls@, ls@.len());
                }
                if ls.len() == 0 {
                    return Order::Less;
                }
                let first = ls[0].compare(other);
                if first != Order::Equal {
                    first
                } else if ls.len() == 1 {
                    Order::Equal
                } else {
                    Order::Greater
                }
            },
            (PacketNode::Int(_), PacketNode::List(rs)) => {
                proof {
                    lemma_packets(rs@, rs@.len());
                }
                if rs.len() == 0 {
                    return Order::Greater;
                }
                let first = self.compare(&rs[0]);
                if first != Order::Equal {
                    first
                } else if rs.len() == 1 {
                    Order::Equal
                } else {
                    Order::Less
                }
            },
        }
    }
}

/// How reading a line has gone: it is over with a packet, it has failed,
/// or it has come to the end of the line with lists still open.
pub enum Outcome {
    Done(Packet),
    Failed,
    Ended(Seq<Seq<Packet>>),
}

/// Whether the byte is a decimal digit.
pub open spec fn is_digit(b: u8) -> bool {
    48 <= b <= 57
}

/// The number read when `num` is read so far and the digits from `i` on
/// follow, each of which multiplies what is read by ten and adds its
/// byte, and the place after the digits; `None` where the number
/// outgrows a byte.
pub open spec fn number(s: Seq<u8>, i: int, num: int) -> Option<(u8, int)>
    decreases s.len() - i,
{
    if 0 <= i < s.len() && is_digit(s[i]) {
        if num * 10 + s[i] > 255 {
            None
        } else {
            number(s, i + 1, num * 10 + s[i])
        }
    } else if 0 <= num <= 255 {
        Some((num as u8, i))
    } else {
        None
    }
}

/// The open lists with the packet put at the end of the innermost.
pub open spec fn with_packet(stack: Seq<Seq<Packet>>, p: Packet) -> Seq<Seq<Packet>> {
    stack.update(stack.len() - 1, stack.last().push(p))
}

/// Reads the line from place `i` on, the lists of `stack` being open,
/// innermost last: a bracket opens a list or closes the innermost, digits
/// make a number, spaces and commas are passed over. Reading is over
/// when the outermost list is closed at the end of the line.
pub open spec fn first_pass(s: Seq<u8>, i: int, stack: Seq<Seq<Packet>>) -> Outcome
    decreases s.len() - i,
{
    if i >= s.len() || i < 0 {
        Outcome::Ended(stack)
    } else if s[i] == 91 {
        first_pass(s, i + 1, stack.push(Seq::empty()))
    } else if s[i] == 93 {
        if stack.len() == 0 {
            Outcome::Failed
        } else if stack.len() > 1 {
            first_pass(s, i + 1, with_packet(stack.drop_last(), Packet::List(stack.last())))
        } else if i + 1 >= s.len() {
            Outcome::Done(Packet::List(stack.last()))
        } else {
            Outcome::Failed
        }
    } else if is_digit(s[i]) {
        match number(s, i + 1, s[i] - 48) {
            Some((num, next)) => if stack.len() == 0 || next <= i || next > s.len() {
                Outcome::Failed
            } else {
                first_pass(s, next, with_packet(stack, Packet::Int(num)))
            },
            None => Outcome::Failed,
        }
    } else if s[i] == 32 || s[i] == 44 {
        first_pass(s, i + 1, stack)
    } else {
        Outcome::Failed
    }
}

/// Reads the line once more from place `i` on, every digit a number of
/// its own, onto the lists that the first reading has left open.
pub open spec fn second_pass(s: Seq<u8>, i: int, stack: Seq<Seq<Packet>>) -> Outcome
    decreases s.len() - i,
{
    if i >= s.len() || i < 0 {
        Outcome::Ended(stack)
    } else if s[i] == 91 {
        second_pass(s, i + 1, stack.push(Seq::empty()))
    } else if s[i] == 93 {
        if stack.len() < 2 {
            Outcome::Failed
        } else {
            second_pass(s, i + 1, with_packet(stack.drop_last(), Packet::List(stack.last())))
        }
    } else if is_digit(s[i]) {
        if stack.len() == 0 {
            Outcome::Failed
        } else {
            second_pass(s, i + 1, with_packet(stack, Packet::Int((s[i] - 48) as u8)))
        }
    } else if s[i] == 32 || s[i] == 44 {
        second_pass(s, i + 1, stack)
    } else {
        Outcome::Failed
    }
}

/// The packet that a line tells of; `None` where reading it fails.
pub open spec fn packet_of(s: Seq<u8>) -> Option<Packet> {
    match first_pass(s, 0, Seq::empty()) {
        Outcome::Done(p) => Some(p),
        Outcome::Failed => None,
        Outcome::Ended(stack) => match second_pass(s, 0, stack) {
            Outcome::Ended(left) => if left.len() > 0 {
                Some(Packet::List(left.last()))
            } else {
                None
            },
            _ => None,
        },
    }
}

/// The open lists as values of mathematics.
pub open spec fn lists_of(stack: Seq<Vec<PacketNode>>) -> Seq<Seq<Packet>> {
    Seq::new(stack.len(), |i: int| packets(stack[i]@, stack[i]@.len()))
}

/// A packet more in a list is a packet more among its values.
pub proof fn lemma_pushed(v: Seq<PacketNode>, p: PacketNode)
    ensures
        packets(v.push(p), v.len() + 1) == packets(v, v.len()).push(p.packet()),
    decreases v.len(),
{
    lemma_same_front(v, v.push(p), v.len());
    assert(v.push(p)[v.len() as int] == p);
}

/// Lists that begin with the same packets begin with the same values.
pub proof fn lemma_same_front(a: Seq<PacketNode>, b: Seq<PacketNode>, n: nat)
    requires
        n <= a.len(),
        n <= b.len(),
        forall|i: int| 0 <= i < n ==> a[i] == b[i],
    ensures
        packets(a, n) == packets(b, n),
    decreases n,
{
    if n > 0 {
        lemma_same_front(a, b, (n - 1) as nat);
    }
}

/// Puts the packet at the end of the innermost open list.
pub fn push_packet(stack: &mut Vec<Vec<PacketNode>>, node: PacketNode)
    requires
        old(stack)@.len() > 0,
    ensures
        lists_of(final(stack)@) == with_packet(lists_of(old(stack)@), node.packet()),
{
    let top = stack.len() - 1;
    let ghost before = stack@;
    let ghost value = node.packet();
    proof {
        lemma_pushed(before[top as int]@, node);
    }
    stack[top].push(node);
    assert(lists_of(stack@) =~= with_packet(lists_of(before), value));
}

/// Opens a list.
pub fn open_list(stack: &mut Vec<Vec<PacketNode>>)
    ensures
        lists_of(final(stack)@) == lists_of(old(stack)@).push(Seq::empty()),
{
    let ghost before = stack@;
    stack.push(Vec::new());
    assert(lists_of(stack@) =~= lists_of(before).push(Seq::empty()));
}

/// Closes the innermost open list and gives it as a packet.
pub fn close_list(stack: &mut Vec<Vec<PacketNode>>) -> (node: PacketNode)
    requires
        old(stack)@.len() > 0,
    ensures
        lists_of(final(stack)@) == lists_of(old(stack)@).drop_last(),
        node.packet() == Packet::List(lists_of(old(stack)@).last()),
{
    let ghost before = stack@;
    match stack.pop() {
        Some(list) => {
            assert(lists_of(stack@) =~= lists_of(before).drop_last());
            PacketNode::List(list)
        },
        None => PacketNode::Int(0),
    }
}

/// The number that begins with the digit at `i`.
pub fn read_number(bytes: &[u8], i: usize) -> (read: Option<(u8, usize)>)
    requires
        i < bytes@.len(),
        is_digit(bytes@[i as int]),
    ensures
        match read {
            Some((num, next)) => number(bytes@, i + 1, bytes@[i as int] - 48) == Some(
                (num, next as int),
            ) && i < next <= bytes@.len(),
            None => number(bytes@, i + 1, bytes@[i as int] - 48) is None,
        },
{
    let mut num: u8 = bytes[i] - 48;
    let mut at = i + 1;
    while at < bytes.len() && 48 <= bytes[at] && bytes[at] <= 57
        invariant
            i < at <= bytes@.len(),
            number(bytes@, i + 1, bytes@[i as int] - 48) == number(bytes@, at as int, num as int),
        decreases bytes@.len() - at,
    {
        if num > 25 || num * 10 > 255 - bytes[at] {
            return None;
        }
        num = num * 10 + bytes[at];
        at += 1;
    }
    Some((num, at))
}

/// The packet that a line tells of; `None` where reading it fails.
pub fn parse_line(line: &str) -> (node: Option<PacketNode>)
    ensures
        match node {
            Some(p) => packet_of(line.spec_bytes()) == Some(p.packet()),
            None => packet_of(line.spec_bytes()) is None,
        },
{
    let bytes = line.as_bytes();
    let ghost s = bytes@;
    let mut stack: Vec<Vec<PacketNode>> = Vec::new();
    let mut i: usize = 0;
    assert(lists_of(stack@) =~= Seq::empty());
    while i < bytes.len()
        invariant
            i <= bytes@.len(),
            s == bytes@,
            s == line.spec_bytes(),
            first_pass(s, 0, Seq::empty()) == first_pass(s, i as int, lists_of(stack@)),
        decreases bytes@.len() - i,
    {
        let b = bytes[i];
        if b == 91 {
            open_list(&mut stack);
            i += 1;
        } else if b == 93 {
            if stack.len() == 0 {
                return None;
            }
            let node = close_list(&mut stack);
            if stack.len() > 0 {
                push_packet(&mut stack, node);
                i += 1;
            } else if i + 1 >= bytes.len() {
                return Some(node);
            } else {
                return None;
            }
        } else if 48 <= b && b <= 57 {
            match read_number(bytes, i) {
                Some((num, next)) => {
                    if stack.len() == 0 {
                        return None;
                    }
                    push_packet(&mut stack, PacketNode::Int(num));
                    i = next;
                },
                None => {
                    return None;
                },
            }
        } else if b == 32 || b == 44 {
            i += 1;
        } else {
            return None;
        }
    }
    let ghost open_lists = lists_of(stack@);
    let mut k: usize = 0;
    while k < bytes.len()
        invariant
            k <= bytes@.len(),
            s == bytes@,
            s == line.spec_bytes(),
            first_pass(s, 0, Seq::empty()) == Outcome::Ended(open_lists),
            second_pass(s, 0, open_lists) == second_pass(s, k as int, lists_of(stack@)),
        decreases bytes@.len() - k,
    {
        let b = bytes[k];
        if b == 91 {
            open_list(&mut stack);
        } else if b == 93 {
            if stack.len() < 2 {
                return None;
            }
            let node = close_list(&mut stack);
            push_packet(&mut stack, node);
        } else if 48 <= b && b <= 57 {
            if stack.len() == 0 {
                return None;
            }
            push_packet(&mut stack, PacketNode::Int(b - 48));
        } else if b == 32 || b == 44 {
        } else {
            return None;
        }
        k += 1;
    }
    if stack.len() == 0 {
        return None;
    }
    Some(close_list(&mut stack))
}

} // verus!
