//! The network checkpoint format: a small, explicit little-endian binary layout.
//!
//! ```text
//! "GDQN"                       4-byte magic
//! n                            u32, number of layers
//! per layer:
//!   in_dim, out_dim            u32 each
//!   w[0 .. in_dim * out_dim]   one u32 per weight (its IEEE-754 bits)
//!   b[0 .. out_dim]            one u32 per bias
//! ```
//!
//! Weights and biases travel as the bit patterns of their floating-point
//! values; converting between a float and its bits is left to the caller.

use vstd::prelude::*;

verus! {

/// Why a checkpoint could not be read.
#[derive(Clone, Copy, Debug, PartialEq, Eq, Structural)]
pub enum CheckpointError {
    /// The input does not start with the checkpoint magic.
    BadMagic,
    /// The input ends before the checkpoint does.
    Truncated,
}

/// One fully-connected layer as stored: dimensions, then the row-major weight
/// matrix (`out_dim * in_dim`) and the biases (`out_dim`), as bit patterns.
pub struct LayerRecord {
    pub in_dim: u32,
    pub out_dim: u32,
    pub w: Vec<u32>,
    pub b: Vec<u32>,
}

/// The model of a [`LayerRecord`].
pub struct LayerView {
    pub in_dim: u32,
    pub out_dim: u32,
    pub w: Seq<u32>,
    pub b: Seq<u32>,
}

impl View for LayerRecord {
    type V = LayerView;

    open spec fn view(&self) -> LayerView {
        LayerView { in_dim: self.in_dim, out_dim: self.out_dim, w: self.w@, b: self.b@ }
    }
}

impl LayerView {
    /// The weight and bias counts match the dimensions.
    pub open spec fn wf(self) -> bool {
        &&& self.w.len() == self.in_dim * self.out_dim
        &&& self.b.len() == self.out_dim
    }
}

/// The four magic bytes, "GDQN".
pub open spec fn magic() -> Seq<u8> {
    seq![0x47u8, 0x44u8, 0x51u8, 0x4Eu8]
}

/// The little-endian bytes of `v`.
pub open spec fn le_bytes(v: u32) -> Seq<u8> {
    seq![
        (v % 256) as u8,
        ((v / 256) % 256) as u8,
        ((v / 65536) % 256) as u8,
        (v / 16777216) as u8,
    ]
}

/// The `u32` whose little-endian bytes are `s[at .. at + 4]`.
pub open spec fn le_value(s: Seq<u8>, at: int) -> u32 {
    (s[at] + 256 * s[at + 1] + 65536 * s[at + 2] + 16777216 * s[at + 3]) as u32
}

/// A run of words, each as its little-endian bytes.
pub open spec fn words(ws: Seq<u32>) -> Seq<u8>
    decreases ws.len(),
{
    if ws.len() == 0 {
        Seq::empty()
    } else {
        words(ws.drop_last()) + le_bytes(ws.last())
    }
}

/// One layer's bytes.
pub open spec fn layer_bytes(l: LayerView) -> Seq<u8> {
    le_bytes(l.in_dim) + le_bytes(l.out_dim) + words(l.w) + words(l.b)
}

/// The layers' bytes, one after the other.
pub open spec fn layers_bytes(ls: Seq<LayerView>) -> Seq<u8>
    decreases ls.len(),
{
    if ls.len() == 0 {
        Seq::empty()
    } else {
        layers_bytes(ls.drop_last()) + layer_bytes(ls.last())
    }
}

/// The whole checkpoint: magic, layer count, layers.
pub open spec fn checkpoint_bytes(ls: Seq<LayerView>) -> Seq<u8> {
    magic() + le_bytes(ls.len() as u32) + layers_bytes(ls)
}

/// Read `count` words from `pos` on, appending them to `acc`; `None` if the
/// input runs out first. On success, also the position after the last word.
pub open spec fn read_words(s: Seq<u8>, pos: int, count: nat, acc: Seq<u32>) -> Option<(Seq<u32>, int)>
    decreases count,
{
    if count == 0 {
        Some((acc, pos))
    } else if 0 <= pos && pos + 4 <= s.len() {
        read_words(s, pos + 4, (count - 1) as nat, acc.push(le_value(s, pos)))
    } else {
        None
    }
}

/// Read one layer at `pos`: its dimensions, then its weights and biases.
pub open spec fn read_layer(s: Seq<u8>, pos: int) -> Option<(LayerView, int)> {
    if 0 <= pos && pos + 8 <= s.len() {
        let in_dim = le_value(s, pos);
        let out_dim = le_value(s, pos + 4);
        match read_words(s, pos + 8, (in_dim * out_dim) as nat, Seq::empty()) {
            None => None,
            Some((w, p)) => match read_words(s, p, out_dim as nat, Seq::empty()) {
                None => None,
                Some((b, q)) => Some((LayerView { in_dim, out_dim, w, b }, q)),
            },
        }
    } else {
        None
    }
}

/// Read `remaining` more layers from `pos` on, appending them to `acc`.
pub open spec fn read_layers(s: Seq<u8>, pos: int, remaining: nat, acc: Seq<LayerView>) -> Result<
    Seq<LayerView>,
    CheckpointError,
>
    decreases remaining,
{
    if remaining == 0 {
        Ok(acc)
    } else {
        match read_layer(s, pos) {
            None => Err(CheckpointError::Truncated),
            Some((l, p)) => read_layers(s, p, (remaining - 1) as nat, acc.push(l)),
        }
    }
}

/// What reading a checkpoint yields: too short for the magic, the wrong
/// magic, too short for the layer count, or the layers (bytes after the last
/// layer are not read).
pub open spec fn read_checkpoint(s: Seq<u8>) -> Result<Seq<LayerView>, CheckpointError> {
    if s.len() < 4 {
        Err(CheckpointError::Truncated)
    } else if s.take(4) != magic() {
        Err(CheckpointError::BadMagic)
    } else if s.len() < 8 {
        Err(CheckpointError::Truncated)
    } else {
        read_layers(s, 8, le_value(s, 4) as nat, Seq::empty())
    }
}

proof fn lemma_le_roundtrip(v: u32)
    ensures
        le_value(le_bytes(v), 0) == v,
{
    let b0: u32 = v % 256;
    let b1: u32 = (v / 256) % 256;
    let b2: u32 = (v / 65536) % 256;
    let b3: u32 = v / 16777216;
    assert(b0 + 256 * b1 + 65536 * b2 + 16777216 * b3 == v) by (bit_vector)
        requires
            b0 == v % 256,
            b1 == (v / 256) % 256,
            b2 == (v / 65536) % 256,
            b3 == v / 16777216,
    ;
    assert(b3 < 256) by (bit_vector)
        requires
            b3 == v / 16777216,
    ;
    assert(le_bytes(v)[0] == b0);
    assert(le_bytes(v)[1] == b1);
    assert(le_bytes(v)[2] == b2);
    assert(le_bytes(v)[3] == b3);
}

proof fn lemma_words_len(ws: Seq<u32>)
    ensures
        words(ws).len() == 4 * ws.len(),
    decreases ws.len(),
{
    if ws.len() > 0 {
        lemma_words_len(ws.drop_last());
    }
}

proof fn lemma_words_front(ws: Seq<u32>)
    requires
        ws.len() > 0,
    ensures
        words(ws) == le_bytes(ws[0]) + words(ws.drop_first()),
    decreases ws.len(),
{
    if ws.len() == 1 {
        assert(ws.drop_last() =~= Seq::<u32>::empty());
        assert(ws.drop_first() =~= Seq::<u32>::empty());
        assert(words(ws) =~= le_bytes(ws[0]) + words(ws.drop_first()));
    } else {
        lemma_words_front(ws.drop_last());
        assert(ws.drop_last().drop_first() =~= ws.drop_first().drop_last());
        assert(ws.drop_first().last() == ws.last());
        assert(words(ws) =~= le_bytes(ws[0]) + words(ws.drop_first()));
    }
}

proof fn lemma_layers_front(ls: Seq<LayerView>)
    requires
        ls.len() > 0,
    ensures
        layers_bytes(ls) == layer_bytes(ls[0]) + layers_bytes(ls.drop_first()),
    decreases ls.len(),
{
    if ls.len() == 1 {
        assert(ls.drop_last() =~= Seq::<LayerView>::empty());
        assert(ls.drop_first() =~= Seq::<LayerView>::empty());
        assert(layers_bytes(ls) =~= layer_bytes(ls[0]) + layers_bytes(ls.drop_first()));
    } else {
        lemma_layers_front(ls.drop_last());
        assert(ls.drop_last().drop_first() =~= ls.drop_first().drop_last());
        assert(ls.drop_first().last() == ls.last());
        assert(layers_bytes(ls) =~= layer_bytes(ls[0]) + layers_bytes(ls.drop_first()));
    }
}

/// Reading words back from their bytes yields them.
proof fn lemma_read_words(s: Seq<u8>, pos: int, ws: Seq<u32>, acc: Seq<u32>)
    requires
        0 <= pos,
        pos + 4 * ws.len() <= s.len(),
        s.subrange(pos, pos + 4 * ws.len()) == words(ws),
    ensures
        read_words(s, pos, ws.len(), acc) == Some((acc + ws, pos + 4 * ws.len())),
    decreases ws.len(),
{
    if ws.len() == 0 {
        assert(acc + ws =~= acc);
    } else {
        lemma_words_front(ws);
        lemma_words_len(ws.drop_first());
        let rest = ws.drop_first();
        assert(s.subrange(pos, pos + 4) =~= le_bytes(ws[0])) by {
            assert forall|k: int| 0 <= k < 4 implies s.subrange(pos, pos + 4)[k] == le_bytes(ws[0])[k] by {
                assert(s.subrange(pos, pos + 4 * ws.len())[k] == words(ws)[k]);
            }
        }
        assert(s.subrange(pos + 4, pos + 4 + 4 * rest.len()) =~= words(rest)) by {
            assert forall|k: int| 0 <= k < 4 * rest.len() implies s.subrange(pos + 4, pos + 4 + 4 * rest.len())[k]
                == words(rest)[k] by {
                assert(s.subrange(pos, pos + 4 * ws.len())[k + 4] == words(ws)[k + 4]);
            }
        }
        lemma_le_roundtrip(ws[0]);
        assert(le_value(s, pos) == le_value(le_bytes(ws[0]), 0));
        lemma_read_words(s, pos + 4, rest, acc.push(ws[0]));
        assert(acc.push(ws[0]) + rest =~= acc + ws);
    }
}

/// A window of `s` that holds `x + y` holds `x`, then `y`.
proof fn lemma_split(s: Seq<u8>, pos: int, x: Seq<u8>, y: Seq<u8>)
    requires
        0 <= pos,
        pos + x.len() + y.len() <= s.len(),
        s.subrange(pos, pos + x.len() + y.len()) == x + y,
    ensures
        s.subrange(pos, pos + x.len()) == x,
        s.subrange(pos + x.len(), pos + x.len() + y.len()) == y,
{
    let whole = s.subrange(pos, pos + x.len() + y.len());
    assert forall|k: int| 0 <= k < x.len() implies s.subrange(pos, pos + x.len())[k] == x[k] by {
        assert(whole[k] == (x + y)[k]);
    }
    assert forall|k: int| 0 <= k < y.len() implies s.subrange(pos + x.len(), pos + x.len() + y.len())[k] == y[k] by {
        assert(whole[x.len() + k] == (x + y)[x.len() + k]);
    }
    assert(s.subrange(pos, pos + x.len()) =~= x);
    assert(s.subrange(pos + x.len(), pos + x.len() + y.len()) =~= y);
}

/// A window holding a well-formed layer's bytes reads back as that layer.
proof fn lemma_read_layer(s: Seq<u8>, pos: int, l: LayerView)
    requires
        0 <= pos,
        pos + layer_bytes(l).len() <= s.len(),
        s.subrange(pos, pos + layer_bytes(l).len()) == layer_bytes(l),
        l.wf(),
    ensures
        read_layer(s, pos) == Some((l, pos + layer_bytes(l).len())),
{
    let h1 = le_bytes(l.in_dim);
    let h2 = le_bytes(l.out_dim);
    let ww = words(l.w);
    let wb = words(l.b);
    lemma_words_len(l.w);
    lemma_words_len(l.b);
    assert(layer_bytes(l) == h1 + h2 + ww + wb);
    lemma_split(s, pos, h1 + h2 + ww, wb);
    lemma_split(s, pos, h1 + h2, ww);
    lemma_split(s, pos, h1, h2);
    lemma_le_roundtrip(l.in_dim);
    lemma_le_roundtrip(l.out_dim);
    assert(s[pos] == s.subrange(pos, pos + 4)[0]);
    assert(s[pos + 1] == s.subrange(pos, pos + 4)[1]);
    assert(s[pos + 2] == s.subrange(pos, pos + 4)[2]);
    assert(s[pos + 3] == s.subrange(pos, pos + 4)[3]);
    assert(le_value(s, pos) == le_value(h1, 0));
    assert(s[pos + 4] == s.subrange(pos + 4, pos + 8)[0]);
    assert(s[pos + 5] == s.subrange(pos + 4, pos + 8)[1]);
    assert(s[pos + 6] == s.subrange(pos + 4, pos + 8)[2]);
    assert(s[pos + 7] == s.subrange(pos + 4, pos + 8)[3]);
    assert(le_value(s, pos + 4) == le_value(h2, 0));
    lemma_read_words(s, pos + 8, l.w, Seq::empty());
    assert(Seq::<u32>::empty() + l.w =~= l.w);
    lemma_read_words(s, pos + 8 + ww.len(), l.b, Seq::empty());
    assert(Seq::<u32>::empty() + l.b =~= l.b);
}

proof fn lemma_read_layers(s: Seq<u8>, pos: int, ls: Seq<LayerView>, acc: Seq<LayerView>)
    requires
        0 <= pos,
        pos + layers_bytes(ls).len() <= s.len(),
        s.subrange(pos, pos + layers_bytes(ls).len()) == layers_bytes(ls),
        forall|k: int| 0 <= k < ls.len() ==> (#[trigger] ls[k]).wf(),
    ensures
        read_layers(s, pos, ls.len(), acc) == Ok::<Seq<LayerView>, CheckpointError>(acc + ls),
    decreases ls.len(),
{
    if ls.len() == 0 {
        assert(acc + ls =~= acc);
    } else {
        lemma_layers_front(ls);
        let l = ls[0];
        let rest = ls.drop_first();
        let lb = layer_bytes(l);
        lemma_split(s, pos, lb, layers_bytes(rest));
        assert(l.wf());
        lemma_read_layer(s, pos, l);
        assert forall|k: int| 0 <= k < rest.len() implies (#[trigger] rest[k]).wf() by {
            assert(rest[k] == ls[k + 1]);
        }
        lemma_read_layers(s, pos + lb.len(), rest, acc.push(l));
        assert(acc.push(l) + rest =~= acc + ls);
    }
}

/// A written checkpoint reads back as the layers it was written from, whatever
/// follows it in the input.
pub proof fn law_checkpoint_roundtrip(ls: Seq<LayerView>, extra: Seq<u8>)
    requires
        ls.len() <= u32::MAX,
        forall|k: int| 0 <= k < ls.len() ==> (#[trigger] ls[k]).wf(),
    ensures
        read_checkpoint(checkpoint_bytes(ls) + extra) == Ok::<Seq<LayerView>, CheckpointError>(ls),
{
    let s = checkpoint_bytes(ls) + extra;
    let body = layers_bytes(ls);
    assert(s.take(4) =~= magic());
    lemma_le_roundtrip(ls.len() as u32);
    assert(le_value(s, 4) == le_value(le_bytes(ls.len() as u32), 0));
    assert(s.subrange(8, 8 + body.len() as int) =~= body);
    lemma_read_layers(s, 8, ls, Seq::empty());
    assert(Seq::<LayerView>::empty() + ls =~= ls);
}

/// The number that the four bytes `s[at .. at + 4]` spell, least significant
/// byte first.
pub open spec fn word_at(s: Seq<u8>, at: int) -> int {
    s[at] + 256 * s[at + 1] + 65536 * s[at + 2] + 16777216 * s[at + 3]
}

/// Where layer `k` of `ls` starts in a checkpoint: after the 8 header bytes
/// and the layers before it, each taking 8 bytes of dimensions and 4 bytes per
/// weight and per bias.
pub open spec fn layer_offset(ls: Seq<LayerView>, k: nat) -> int
    decreases k,
{
    if k == 0 {
        8
    } else {
        layer_offset(ls, (k - 1) as nat) + 8 + 4 * ls[k - 1].w.len() + 4 * ls[k - 1].b.len()
    }
}

proof fn lemma_le_word(v: u32)
    ensures
        le_bytes(v).len() == 4,
        word_at(le_bytes(v), 0) == v,
{
    let b0: u32 = v % 256;
    let b1: u32 = (v / 256) % 256;
    let b2: u32 = (v / 65536) % 256;
    let b3: u32 = v / 16777216;
    assert(b0 + 256 * b1 + 65536 * b2 + 16777216 * b3 == v) by (bit_vector)
        requires
            b0 == v % 256,
            b1 == (v / 256) % 256,
            b2 == (v / 65536) % 256,
            b3 == v / 16777216,
    ;
    assert(b3 < 256) by (bit_vector)
        requires
            b3 == v / 16777216,
    ;
    assert(le_bytes(v)[0] == b0);
    assert(le_bytes(v)[1] == b1);
    assert(le_bytes(v)[2] == b2);
    assert(le_bytes(v)[3] == b3);
}

/// A word read through a window equal to four known bytes is their value.
proof fn lemma_word_window(s: Seq<u8>, a: int, x: Seq<u8>)
    requires
        0 <= a,
        a + 4 <= s.len(),
        x.len() == 4,
        s.subrange(a, a + 4) == x,
    ensures
        word_at(s, a) == word_at(x, 0),
{
    assert(s[a] == s.subrange(a, a + 4)[0]);
    assert(s[a + 1] == s.subrange(a, a + 4)[1]);
    assert(s[a + 2] == s.subrange(a, a + 4)[2]);
    assert(s[a + 3] == s.subrange(a, a + 4)[3]);
}

/// Word `i` of a run sits at bytes `4 * i .. 4 * i + 4`.
proof fn lemma_words_at(ws: Seq<u32>, i: int)
    requires
        0 <= i < ws.len(),
    ensures
        words(ws).subrange(4 * i, 4 * i + 4) == le_bytes(ws[i]),
    decreases ws.len(),
{
    let p = ws.drop_last();
    lemma_words_len(p);
    lemma_words_len(ws);
    if i == ws.len() - 1 {
        assert(words(ws).subrange(4 * i, 4 * i + 4) =~= le_bytes(ws[i]));
    } else {
        lemma_words_at(p, i);
        assert(words(ws).subrange(4 * i, 4 * i + 4) =~= words(p).subrange(4 * i, 4 * i + 4));
    }
}

/// The offsets of the first layers do not depend on the layers after them.
proof fn lemma_offset_prefix(ls: Seq<LayerView>, k: nat)
    requires
        k < ls.len(),
    ensures
        layer_offset(ls.drop_last(), k) == layer_offset(ls, k),
    decreases k,
{
    if k > 0 {
        lemma_offset_prefix(ls, (k - 1) as nat);
        assert(ls.drop_last()[k - 1] == ls[k - 1]);
    }
}

proof fn lemma_layer_len(l: LayerView)
    ensures
        layer_bytes(l).len() == 8 + 4 * l.w.len() + 4 * l.b.len(),
{
    lemma_words_len(l.w);
    lemma_words_len(l.b);
}

/// The layers' bytes end where a next layer would start.
proof fn lemma_layers_len(ls: Seq<LayerView>)
    ensures
        layers_bytes(ls).len() == layer_offset(ls, ls.len()) - 8,
    decreases ls.len(),
{
    if ls.len() > 0 {
        let p = ls.drop_last();
        lemma_layers_len(p);
        lemma_layer_len(ls.last());
        lemma_offset_prefix(ls, p.len());
    }
}

/// Layer `k` occupies the layers' bytes from `layer_offset(ls, k) - 8` on.
proof fn lemma_layers_at(ls: Seq<LayerView>, k: int)
    requires
        0 <= k < ls.len(),
    ensures
        layer_offset(ls, k as nat) - 8 + layer_bytes(ls[k]).len() <= layers_bytes(ls).len(),
        8 <= layer_offset(ls, k as nat),
        layers_bytes(ls).subrange(
            layer_offset(ls, k as nat) - 8,
            layer_offset(ls, k as nat) - 8 + layer_bytes(ls[k]).len(),
        ) == layer_bytes(ls[k]),
    decreases ls.len(),
{
    let n = ls.len() - 1;
    let p = ls.drop_last();
    let lb = layers_bytes(ls);
    let pb = layers_bytes(p);
    assert(lb == pb + layer_bytes(ls.last()));
    lemma_offset_prefix(ls, k as nat);
    lemma_layers_len(p);
    if k == n {
        let o = layer_offset(ls, k as nat) - 8;
        assert(o == pb.len());
        assert(lb.subrange(o, o + layer_bytes(ls[k]).len()) =~= layer_bytes(ls[k]));
    } else {
        lemma_layers_at(p, k);
        assert(p[k] == ls[k]);
        let o = layer_offset(ls, k as nat) - 8;
        assert(lb.subrange(o, o + layer_bytes(ls[k]).len()) =~= pb.subrange(o, o + layer_bytes(p[k]).len()));
    }
}

/// A word inside a window of `s` that holds `lb` reads as the four bytes of
/// `lb` it covers.
proof fn lemma_window_in(s: Seq<u8>, o: int, lb: Seq<u8>, a: int, x: Seq<u8>)
    requires
        0 <= o,
        o + lb.len() <= s.len(),
        s.subrange(o, o + lb.len()) == lb,
        0 <= a,
        a + 4 <= lb.len(),
        x.len() == 4,
        lb.subrange(a, a + 4) == x,
    ensures
        word_at(s, o + a) == word_at(x, 0),
{
    assert forall|t: int| 0 <= t < 4 implies #[trigger] s.subrange(o + a, o + a + 4)[t] == x[t] by {
        assert(s.subrange(o, o + lb.len())[a + t] == s[o + a + t]);
        assert(lb.subrange(a, a + 4)[t] == lb[a + t]);
    }
    assert(s.subrange(o + a, o + a + 4) =~= x);
    lemma_word_window(s, o + a, x);
}

/// A window holding a layer's bytes holds, as little-endian words, its
/// input width, its output width, its weights and then its biases.
proof fn lemma_layer_fields(s: Seq<u8>, o: int, l: LayerView)
    requires
        0 <= o,
        o + layer_bytes(l).len() <= s.len(),
        s.subrange(o, o + layer_bytes(l).len()) == layer_bytes(l),
    ensures
        word_at(s, o) == l.in_dim,
        word_at(s, o + 4) == l.out_dim,
        forall|i: int| 0 <= i < l.w.len() ==> word_at(s, o + 8 + 4 * i) == #[trigger] l.w[i],
        forall|j: int| 0 <= j < l.b.len() ==> word_at(s, o + 8 + 4 * l.w.len() + 4 * j) == #[trigger] l.b[j],
{
    let lb = layer_bytes(l);
    let ww = words(l.w);
    let wb = words(l.b);
    lemma_words_len(l.w);
    lemma_words_len(l.b);
    lemma_le_word(l.in_dim);
    lemma_le_word(l.out_dim);
    assert(lb == le_bytes(l.in_dim) + le_bytes(l.out_dim) + ww + wb);
    assert(lb.subrange(0, 4) =~= le_bytes(l.in_dim));
    lemma_window_in(s, o, lb, 0, le_bytes(l.in_dim));
    assert(lb.subrange(4, 8) =~= le_bytes(l.out_dim));
    lemma_window_in(s, o, lb, 4, le_bytes(l.out_dim));
    assert forall|i: int| 0 <= i < l.w.len() implies word_at(s, o + 8 + 4 * i) == #[trigger] l.w[i] by {
        lemma_words_at(l.w, i);
        lemma_le_word(l.w[i]);
        assert(lb.subrange(8 + 4 * i, 8 + 4 * i + 4) =~= ww.subrange(4 * i, 4 * i + 4));
        lemma_window_in(s, o, lb, 8 + 4 * i, le_bytes(l.w[i]));
    }
    assert forall|j: int| 0 <= j < l.b.len() implies word_at(s, o + 8 + 4 * l.w.len() + 4 * j)
        == #[trigger] l.b[j] by {
        lemma_words_at(l.b, j);
        lemma_le_word(l.b[j]);
        let a = 8 + 4 * l.w.len() + 4 * j;
        assert(lb.subrange(a, a + 4) =~= wb.subrange(4 * j, 4 * j + 4));
        lemma_window_in(s, o, lb, a, le_bytes(l.b[j]));
    }
}

/// The checkpoint layout, byte by byte: the magic "GDQN", the layer count,
/// then for each layer, at its offset, its input width, its output width,
/// its weights in order and its biases in order, each a little-endian `u32`;
/// the checkpoint ends right after the last layer.
pub proof fn law_checkpoint_layout(ls: Seq<LayerView>)
    requires
        ls.len() <= u32::MAX,
    ensures
        ({
            let s = checkpoint_bytes(ls);
            &&& s.len() == layer_offset(ls, ls.len())
            &&& s[0] == 0x47u8 && s[1] == 0x44u8 && s[2] == 0x51u8 && s[3] == 0x4Eu8
            &&& word_at(s, 4) == ls.len()
            &&& forall|k: int| 0 <= k < ls.len() ==> {
                let o = layer_offset(ls, k as nat);
                &&& word_at(s, o) == (#[trigger] ls[k]).in_dim
                &&& word_at(s, o + 4) == ls[k].out_dim
                &&& forall|i: int| 0 <= i < ls[k].w.len() ==> word_at(s, o + 8 + 4 * i) == #[trigger] ls[k].w[i]
                &&& forall|j: int|
                    0 <= j < ls[k].b.len() ==> word_at(s, o + 8 + 4 * ls[k].w.len() + 4 * j) == #[trigger] ls[k].b[j]
            }
        }),
{
    let s = checkpoint_bytes(ls);
    let body = layers_bytes(ls);
    lemma_layers_len(ls);
    lemma_le_word(ls.len() as u32);
    assert(s.subrange(4, 8) =~= le_bytes(ls.len() as u32));
    lemma_word_window(s, 4, le_bytes(ls.len() as u32));
    assert forall|k: int| 0 <= k < ls.len() implies {
        let o = layer_offset(ls, k as nat);
        &&& word_at(s, o) == (#[trigger] ls[k]).in_dim
        &&& word_at(s, o + 4) == ls[k].out_dim
        &&& forall|i: int| 0 <= i < ls[k].w.len() ==> word_at(s, o + 8 + 4 * i) == #[trigger] ls[k].w[i]
        &&& forall|j: int|
            0 <= j < ls[k].b.len() ==> word_at(s, o + 8 + 4 * ls[k].w.len() + 4 * j) == #[trigger] ls[k].b[j]
    } by {
        let o = layer_offset(ls, k as nat);
        let lb = layer_bytes(ls[k]);
        lemma_layers_at(ls, k);
        assert forall|t: int| 0 <= t < lb.len() implies #[trigger] s.subrange(o, o + lb.len())[t] == lb[t] by {
            assert(s[o + t] == body[o - 8 + t]);
            assert(body.subrange(o - 8, o - 8 + lb.len())[t] == body[o - 8 + t]);
        }
        assert(s.subrange(o, o + lb.len()) =~= lb);
        lemma_layer_fields(s, o, ls[k]);
    }
}

/// Append the little-endian bytes of `v`.
pub fn write_u32(out: &mut Vec<u8>, v: u32)
    ensures
        final(out)@ == old(out)@ + le_bytes(v),
{
    out.push((v % 256) as u8);
    out.push(((v / 256) % 256) as u8);
    out.push(((v / 65536) % 256) as u8);
    out.push((v / 16777216) as u8);
    assert(out@ =~= old(out)@ + le_bytes(v));
}

/// Read a little-endian `u32` at `*pos` and move past it, or report that the
/// input ends first (leaving `*pos` as it was).
pub fn read_u32(inp: &[u8], pos: &mut usize) -> (r: Result<u32, CheckpointError>)
    ensures
        *old(pos) <= inp@.len() && inp@.len() - *old(pos) >= 4 ==> r == Ok::<u32, CheckpointError>(
            le_value(inp@, *old(pos) as int),
        ) && *final(pos) == *old(pos) + 4,
        !(*old(pos) <= inp@.len() && inp@.len() - *old(pos) >= 4) ==> r == Err::<u32, CheckpointError>(
            CheckpointError::Truncated,
        ) && *final(pos) == *old(pos),
{
    let p = *pos;
    if p > inp.len() || inp.len() - p < 4 {
        return Err(CheckpointError::Truncated);
    }
    let v = inp[p] as u32 + 256 * (inp[p + 1] as u32) + 65536 * (inp[p + 2] as u32) + 16777216 * (inp[p + 3] as u32);
    *pos = p + 4;
    Ok(v)
}

/// Append each word's bytes.
fn write_words(out: &mut Vec<u8>, ws: &Vec<u32>)
    ensures
        final(out)@ == old(out)@ + words(ws@),
{
    let mut i: usize = 0;
    while i < ws.len()
        invariant
            i <= ws.len(),
            out@ == old(out)@ + words(ws@.take(i as int)),
        decreases ws.len() - i,
    {
        write_u32(out, ws[i]);
        proof {
            assert(ws@.take(i + 1).drop_last() =~= ws@.take(i as int));
            assert(out@ =~= old(out)@ + words(ws@.take(i + 1)));
        }
        i = i + 1;
    }
    assert(ws@.take(ws.len() as int) =~= ws@);
}

/// Serialise the layers into a checkpoint.
pub fn encode(layers: &Vec<LayerRecord>) -> (out: Vec<u8>)
    requires
        layers.len() <= u32::MAX,
    ensures
        out@ == checkpoint_bytes(layers@.map_values(|r: LayerRecord| r@)),
{
    let ghost lv = layers@.map_values(|r: LayerRecord| r@);
    let mut out: Vec<u8> = Vec::new();
    out.push(0x47);
    out.push(0x44);
    out.push(0x51);
    out.push(0x4E);
    write_u32(&mut out, layers.len() as u32);
    let ghost head = out@;
    assert(head =~= magic() + le_bytes(lv.len() as u32));
    let mut i: usize = 0;
    while i < layers.len()
        invariant
            i <= layers.len(),
            lv == layers@.map_values(|r: LayerRecord| r@),
            out@ == head + layers_bytes(lv.take(i as int)),
        decreases layers.len() - i,
    {
        let l = &layers[i];
        write_u32(&mut out, l.in_dim);
        write_u32(&mut out, l.out_dim);
        write_words(&mut out, &l.w);
        write_words(&mut out, &l.b);
        proof {
            assert(lv[i as int] == l@);
            assert(lv.take(i + 1).drop_last() =~= lv.take(i as int));
            assert(out@ =~= head + layers_bytes(lv.take(i + 1)));
        }
        i = i + 1;
    }
    assert(lv.take(layers.len() as int) =~= lv);
    out
}

/// Read `count` words at `*pos`, moving past them.
fn read_word_run(inp: &[u8], pos: &mut usize, count: u64) -> (r: Result<Vec<u32>, CheckpointError>)
    ensures
        match read_words(inp@, *old(pos) as int, count as nat, Seq::empty()) {
            None => r == Err::<Vec<u32>, CheckpointError>(CheckpointError::Truncated),
            Some((ws, p)) => r matches Ok(v) && v@ == ws && *final(pos) == p,
        },
{
    let ghost p0 = *pos as int;
    let mut out: Vec<u32> = Vec::new();
    let mut k: u64 = 0;
    while k < count
        invariant
            k <= count,
            p0 == *old(pos) as int,
            read_words(inp@, p0, count as nat, Seq::empty()) == read_words(inp@, *pos as int, (count - k) as nat, out@),
        decreases count - k,
    {
        let v = read_u32(inp, pos);
        match v {
            Ok(x) => {
                out.push(x);
            },
            Err(e) => {
                assert(read_words(inp@, *pos as int, (count - k) as nat, out@) == None::<(Seq<u32>, int)>);
                assert(e == CheckpointError::Truncated);
                assert(read_words(inp@, p0, count as nat, Seq::empty()) == None::<(Seq<u32>, int)>);
                assert(p0 == *old(pos) as int);
                return Err(e);
            },
        }
        k = k + 1;
    }
    Ok(out)
}

/// Parse a checkpoint (see [`read_checkpoint`]).
pub fn decode(inp: &[u8]) -> (r: Result<Vec<LayerRecord>, CheckpointError>)
    ensures
        match r {
            Ok(ls) => read_checkpoint(inp@) == Ok::<Seq<LayerView>, CheckpointError>(
                ls@.map_values(|l: LayerRecord| l@),
            ),
            Err(e) => read_checkpoint(inp@) == Err::<Seq<LayerView>, CheckpointError>(e),
        },
{
    if inp.len() < 4 {
        return Err(CheckpointError::Truncated);
    }
    if !(inp[0] == 0x47 && inp[1] == 0x44 && inp[2] == 0x51 && inp[3] == 0x4E) {
        proof {
            if inp@.take(4) == magic() {
                assert(inp@.take(4)[0] == inp@[0]);
                assert(inp@.take(4)[1] == inp@[1]);
                assert(inp@.take(4)[2] == inp@[2]);
                assert(inp@.take(4)[3] == inp@[3]);
            }
        }
        return Err(CheckpointError::BadMagic);
    }
    assert(inp@.take(4) =~= magic());
    let mut pos: usize = 4;
    let n = match read_u32(inp, &mut pos) {
        Ok(n) => n,
        Err(e) => {
            return Err(e);
        },
    };
    let ghost total = n as nat;
    let mut layers: Vec<LayerRecord> = Vec::new();
    assert(layers@.map_values(|l: LayerRecord| l@) =~= Seq::<LayerView>::empty());
    assert(pos == 8);
    let mut i: u32 = 0;
    while i < n
        invariant
            i <= n,
            total == n as nat,
            inp@.len() >= 8,
            read_checkpoint(inp@) == read_layers(inp@, 8, total, Seq::empty()),
            read_layers(inp@, 8, total, Seq::empty()) == read_layers(
                inp@,
                pos as int,
                (n - i) as nat,
                layers@.map_values(|l: LayerRecord| l@),
            ),
        decreases n - i,
    {
        let ghost p0 = pos as int;
        let ghost acc = layers@.map_values(|l: LayerRecord| l@);
        let in_dim = match read_u32(inp, &mut pos) {
            Ok(v) => v,
            Err(e) => {
                return Err(e);
            },
        };
        let out_dim = match read_u32(inp, &mut pos) {
            Ok(v) => v,
            Err(e) => {
                return Err(e);
            },
        };
        assert((in_dim as u64) * (out_dim as u64) <= u64::MAX) by (nonlinear_arith)
            requires
                in_dim <= u32::MAX,
                out_dim <= u32::MAX,
        ;
        let w = match read_word_run(inp, &mut pos, in_dim as u64 * out_dim as u64) {
            Ok(v) => v,
            Err(e) => {
                return Err(e);
            },
        };
        let b = match read_word_run(inp, &mut pos, out_dim as u64) {
            Ok(v) => v,
            Err(e) => {
                return Err(e);
            },
        };
        let rec = LayerRecord { in_dim, out_dim, w, b };
        proof {
            assert(read_layer(inp@, p0) == Some((rec@, pos as int)));
        }
        layers.push(rec);
        proof {
            assert(layers@.map_values(|l: LayerRecord| l@) =~= acc.push(rec@));
        }
        i = i + 1;
    }
    Ok(layers)
}

} // verus!
