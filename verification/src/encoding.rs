//! How byte totals become the colour and opacity of an edge.
//!
//! Red grows with the share of sent bytes, blue with the share of received
//! bytes; green stays zero. Opacity grows with the total, one step per
//! thousand bytes, between 50 and 200. An edge away from the focus process
//! is drawn in grey at a tenth of its opacity.

use crate::arith::clamp_int;
use crate::bandwidth::{has_node, nodes_distinct, NodeTotals, PairTotals};
use vstd::prelude::*;

verus! {

/// A colour with an opacity, four 8-bit channels.
#[derive(Clone, Copy, Debug, PartialEq, Eq, Structural)]
pub struct Rgba {
    pub r: u8,
    pub g: u8,
    pub b: u8,
    pub a: u8,
}

/// The lowest opacity of an edge.
pub const ALPHA_MIN: u8 = 50;

/// The highest opacity of an edge.
pub const ALPHA_MAX: u8 = 200;

/// The bytes that one step of opacity stands for.
pub const BYTES_PER_ALPHA_STEP: u128 = 1000;

/// `part / whole` of `full`, rounded down.
pub open spec fn share(part: int, whole: int, full: int) -> int {
    full * part / whole
}

/// The opacity of an edge that carried `total` bytes.
pub open spec fn alpha_of(total: int) -> int {
    clamp_int(total / 1000, 50, 200)
}

/// The grey level of a colour: 0.2126 of red, 0.7152 of green and 0.0722 of
/// blue, rounded down.
pub open spec fn luminance(r: u8, g: u8, b: u8) -> int {
    (2126 * r + 7152 * g + 722 * b) / 10000
}

/// The colour of an edge near the focus: channels by share, opacity by total.
pub open spec fn vivid(sent: int, received: int) -> Rgba {
    Rgba {
        r: share(sent, sent + received, 255) as u8,
        g: 0,
        b: share(received, sent + received, 255) as u8,
        a: alpha_of(sent + received) as u8,
    }
}

/// A colour turned grey, with a tenth of its opacity.
pub open spec fn muted(c: Rgba) -> Rgba {
    let gray = luminance(c.r, c.g, c.b) as u8;
    Rgba { r: gray, g: gray, b: gray, a: (c.a / 10) as u8 }
}

/// Whether an edge lies away from the focus process: there is a focus and
/// the edge touches it at neither end.
pub open spec fn is_muted(pair: PairTotals, focus: Option<u32>) -> bool {
    match focus {
        Some(h) => pair.source != h && pair.target != h,
        None => false,
    }
}

/// The totals from which the colour is taken: the totals themselves, or
/// half of each where their sum is beyond the range of `u128`.
pub open spec fn fitted(sent: u128, received: u128) -> (int, int) {
    if sent + received <= u128::MAX {
        (sent as int, received as int)
    } else {
        (sent as int / 2, received as int / 2)
    }
}

/// The colour of an edge, if it carried any bytes.
pub open spec fn edge_color_of(pair: PairTotals, focus: Option<u32>) -> Option<Rgba> {
    let (sent, received) = fitted(pair.sent, pair.received);
    if pair.sent + pair.received == 0 {
        None
    } else if is_muted(pair, focus) {
        Some(muted(vivid(sent, received)))
    } else {
        Some(vivid(sent, received))
    }
}

/// `full * part / whole`, rounded down, for a part that is no larger than
/// the whole. The product is never formed, so no operand is too large.
pub fn scale_share(part: u128, whole: u128, full: u8) -> (r: u8)
    requires
        part <= whole,
        whole > 0,
    ensures
        r == share(part as int, whole as int, full as int),
{
    if part == whole {
        assert(full * whole / whole as int == full) by (nonlinear_arith)
            requires
                whole > 0,
        ;
        return full;
    }
    let gap: u128 = whole - part;
    let mut q: u8 = 0;
    let mut rem: u128 = 0;
    let mut k: u8 = 0;
    while k < full
        invariant
            k <= full,
            part < whole,
            gap == whole - part,
            rem < whole,
            q <= k,
            k * part == q * whole + rem,
        decreases full - k,
    {
        proof {
            assert((k + 1) * part == k * part + part) by (nonlinear_arith);
            assert((q + 1) * whole == q * whole + whole) by (nonlinear_arith);
        }
        if rem >= gap {
            rem = rem - gap;
            q = q + 1;
        } else {
            rem = rem + part;
        }
        k = k + 1;
    }
    proof {
        let x = full as int * part as int;
        let d = whole as int;
        assert(x == q * d + rem);
        vstd::arithmetic::div_mod::lemma_fundamental_div_mod_converse(x, d, q as int, rem as int);
    }
    q
}

/// The opacity of an edge that carried `total` bytes.
pub fn edge_alpha(total: u128) -> (a: u8)
    ensures
        a == alpha_of(total as int),
        ALPHA_MIN <= a <= ALPHA_MAX,
{
    let steps: u128 = total / BYTES_PER_ALPHA_STEP;
    if steps < ALPHA_MIN as u128 {
        ALPHA_MIN
    } else if steps > ALPHA_MAX as u128 {
        ALPHA_MAX
    } else {
        steps as u8
    }
}

/// Turns a colour grey and cuts its opacity to a tenth.
pub fn mute(c: Rgba) -> (m: Rgba)
    ensures
        m == muted(c),
{
    let weighted: u32 = 2126 * (c.r as u32) + 7152 * (c.g as u32) + 722 * (c.b as u32);
    let gray: u8 = (weighted / 10000) as u8;
    Rgba { r: gray, g: gray, b: gray, a: c.a / 10 }
}

/// Whether an edge lies away from the focus process.
pub fn edge_is_muted(pair: &PairTotals, focus: Option<u32>) -> (m: bool)
    ensures
        m == is_muted(*pair, focus),
{
    match focus {
        Some(h) => pair.source != h && pair.target != h,
        None => false,
    }
}

/// The colour in which an edge is drawn; `None` for an edge without bytes.
pub fn edge_color(pair: &PairTotals, focus: Option<u32>) -> (c: Option<Rgba>)
    ensures
        c == edge_color_of(*pair, focus),
{
    if pair.sent == 0 && pair.received == 0 {
        return None;
    }
    let fits: bool = pair.sent <= u128::MAX - pair.received;
    let sent: u128 = if fits {
        pair.sent
    } else {
        pair.sent / 2
    };
    let received: u128 = if fits {
        pair.received
    } else {
        pair.received / 2
    };
    let total: u128 = sent + received;
    let color = Rgba {
        r: scale_share(sent, total, 255),
        g: 0,
        b: scale_share(received, total, 255),
        a: edge_alpha(total),
    };
    if edge_is_muted(pair, focus) {
        Some(mute(color))
    } else {
        Some(color)
    }
}

/// How a process is drawn in the bandwidth view.
#[derive(Clone, Copy, Debug, PartialEq, Eq, Structural)]
pub enum NodeRole {
    /// No process is in focus: every node looks the same.
    Plain,
    /// The process in focus.
    Focus,
    /// A process that exchanged bytes with the one in focus: the red and
    /// blue that its shares of sent and received bytes stand for, and its
    /// combined total, by which the colour is made stronger.
    Peer { red: u8, blue: u8, total: u128 },
    /// A process that shares a pair with the one in focus, but no bytes.
    QuietPeer,
    /// A process that has nothing to do with the one in focus.
    Faded,
}

/// The index of the entry of process `n`.
pub open spec fn node_index(nodes: Seq<NodeTotals>, n: u32) -> int {
    choose|k: int| 0 <= k < nodes.len() && (#[trigger] nodes[k]).node == n
}

/// The role of process `n`, given the process in focus and the totals of
/// the processes around it.
pub open spec fn role_of(nodes: Seq<NodeTotals>, focus: Option<u32>, n: u32) -> NodeRole {
    match focus {
        None => NodeRole::Plain,
        Some(h) => if n == h {
            NodeRole::Focus
        } else if has_node(nodes, n) {
            let e = nodes[node_index(nodes, n)];
            let (sent, received) = fitted(e.sent, e.received);
            if sent + received > 0 {
                NodeRole::Peer {
                    red: share(sent, sent + received, 255) as u8,
                    blue: share(received, sent + received, 255) as u8,
                    total: e.spec_total() as u128,
                }
            } else {
                NodeRole::QuietPeer
            }
        } else {
            NodeRole::Faded
        },
    }
}

/// Decides how process `n` is drawn.
pub fn node_role(nodes: &Vec<NodeTotals>, focus: Option<u32>, n: u32) -> (role: NodeRole)
    requires
        nodes_distinct(nodes@),
    ensures
        role == role_of(nodes@, focus, n),
{
    let h: u32 = match focus {
        Some(h) => h,
        None => {
            return NodeRole::Plain;
        },
    };
    if n == h {
        return NodeRole::Focus;
    }
    let mut k: usize = 0;
    while k < nodes.len()
        invariant
            k <= nodes.len(),
            nodes_distinct(nodes@),
            focus == Some(h),
            n != h,
            forall|j: int| 0 <= j < k ==> (#[trigger] nodes[j]).node != n,
        decreases nodes.len() - k,
    {
        if nodes[k].node == n {
            let e = nodes[k];
            proof {
                assert(nodes@[k as int].node == n);
                assert(has_node(nodes@, n));
                let c = node_index(nodes@, n);
                assert(0 <= c < nodes.len() && nodes[c].node == n);
                if c != k {
                    assert(nodes[c].node != nodes[k as int].node);
                }
            }
            let fits: bool = e.sent <= u128::MAX - e.received;
            let sent: u128 = if fits {
                e.sent
            } else {
                e.sent / 2
            };
            let received: u128 = if fits {
                e.received
            } else {
                e.received / 2
            };
            let whole: u128 = sent + received;
            if whole == 0 {
                return NodeRole::QuietPeer;
            }
            return NodeRole::Peer {
                red: scale_share(sent, whole, 255),
                blue: scale_share(received, whole, 255),
                total: e.total(),
            };
        }
        k = k + 1;
    }
    NodeRole::Faded
}

} // verus!
