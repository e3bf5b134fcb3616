//! Domain names as sequences of labels.
//!
//! A name is stored as its labels in original case; comparison is
//! case-insensitive per ASCII, as DNS requires. The wire form of a name is
//! each label preceded by its length byte, terminated by a zero byte; no
//! compression pointers are produced, and none are accepted.

use vstd::prelude::*;

verus! {

/// Largest number of bytes a single label may hold.
pub const MAX_LABEL_LEN: usize = 63;

/// Largest wire length of a whole name (labels, length bytes and root).
pub const MAX_NAME_LEN: usize = 255;

/// ASCII lowercase of one byte.
pub open spec fn lower_byte(b: u8) -> u8 {
    if 65 <= b && b <= 90 {
        (b + 32) as u8
    } else {
        b
    }
}

/// ASCII lowercase of a byte sequence.
pub open spec fn lower_bytes(s: Seq<u8>) -> Seq<u8> {
    s.map_values(|b: u8| lower_byte(b))
}

/// A label is non-empty and at most 63 bytes long.
pub open spec fn label_ok(l: Seq<u8>) -> bool {
    1 <= l.len() && l.len() <= 63
}

/// The comparison key of a name: every label in ASCII lowercase.
pub open spec fn name_key(ls: Seq<Seq<u8>>) -> Seq<Seq<u8>> {
    ls.map_values(|l: Seq<u8>| lower_bytes(l))
}

/// The views of a vector of labels, as a sequence of byte sequences.
pub open spec fn labels_view(v: Seq<Vec<u8>>) -> Seq<Seq<u8>> {
    Seq::new(v.len(), |i: int| v[i]@)
}

/// Wire form of a run of labels: each label preceded by its length byte.
pub open spec fn wire_labels(ls: Seq<Seq<u8>>) -> Seq<u8>
    decreases ls.len(),
{
    if ls.len() == 0 {
        Seq::<u8>::empty()
    } else {
        seq![ls[0].len() as u8] + ls[0] + wire_labels(ls.skip(1))
    }
}

/// Wire form of a whole name: its labels followed by the root's zero byte.
pub open spec fn wire_name(ls: Seq<Seq<u8>>) -> Seq<u8> {
    wire_labels(ls) + seq![0u8]
}

/// A well-formed name: every label within bounds, total wire length within
/// the 255-byte limit.
pub open spec fn wf_name(ls: Seq<Seq<u8>>) -> bool {
    &&& forall|i: int| 0 <= i < ls.len() ==> label_ok(#[trigger] ls[i])
    &&& wire_name(ls).len() <= 255
}

/// `a` names the same node as, or a zone above, `b`: the labels of `a` are a
/// case-insensitive suffix of the labels of `b`.
pub open spec fn ancestor_of(a: Seq<Seq<u8>>, b: Seq<Seq<u8>>) -> bool {
    &&& a.len() <= b.len()
    &&& name_key(b).skip(b.len() - a.len()) == name_key(a)
}

/// Result of parsing a name from `buf` at `pos`: the labels read and the
/// position just past the terminating zero byte.
pub open spec fn parse_name_at(buf: Seq<u8>, pos: int) -> Option<(Seq<Seq<u8>>, int)>
    decreases buf.len() - pos,
{
    if pos < 0 || pos >= buf.len() {
        None
    } else if buf[pos] == 0 {
        Some((Seq::<Seq<u8>>::empty(), pos + 1))
    } else if buf[pos] > 63 {
        None
    } else if pos + 1 + buf[pos] > buf.len() {
        None
    } else {
        match parse_name_at(buf, pos + 1 + buf[pos]) {
            None => None,
            Some((rest, end)) => if end - pos <= 255 {
                Some((seq![buf.subrange(pos + 1, pos + 1 + buf[pos])] + rest, end))
            } else {
                None
            },
        }
    }
}

/// Wire encoding distributes over concatenation of label runs.
pub proof fn lemma_wire_labels_add(a: Seq<Seq<u8>>, b: Seq<Seq<u8>>)
    ensures
        wire_labels(a + b) == wire_labels(a) + wire_labels(b),
    decreases a.len(),
{
    if a.len() == 0 {
        assert(a + b =~= b);
        assert(wire_labels(a) + wire_labels(b) =~= wire_labels(b));
    } else {
        assert((a + b).skip(1) =~= a.skip(1) + b);
        lemma_wire_labels_add(a.skip(1), b);
        assert(wire_labels(a + b) =~= wire_labels(a) + wire_labels(b));
    }
}

/// The wire form of a single label.
pub proof fn lemma_wire_labels_single(l: Seq<u8>)
    ensures
        wire_labels(seq![l]) == seq![l.len() as u8] + l,
{
    let s = seq![l];
    assert(s.skip(1) =~= Seq::<Seq<u8>>::empty());
    assert(wire_labels(s.skip(1)) == Seq::<u8>::empty()) by {
        assert(wire_labels(Seq::<Seq<u8>>::empty()) == Seq::<u8>::empty());
    }
    assert(s[0] == l);
    assert(wire_labels(s) =~= seq![l.len() as u8] + l);
}

/// Parsing reads back exactly the labels whose wire form sits at `pos`.
pub proof fn lemma_parse_wire_name(ls: Seq<Seq<u8>>, buf: Seq<u8>, pos: int)
    requires
        forall|i: int| 0 <= i < ls.len() ==> label_ok(#[trigger] ls[i]),
        wire_name(ls).len() <= 255,
        0 <= pos,
        pos + wire_name(ls).len() <= buf.len(),
        buf.subrange(pos, pos + wire_name(ls).len()) == wire_name(ls),
    ensures
        parse_name_at(buf, pos) == Some((ls, pos + wire_name(ls).len())),
    decreases ls.len(),
{
    let w = wire_name(ls);
    if ls.len() == 0 {
        assert(w =~= seq![0u8]);
        assert(buf[pos] == buf.subrange(pos, pos + 1)[0]);
    } else {
        let l0 = ls[0];
        let rest = ls.skip(1);
        let wrest = wire_name(rest);
        assert(w =~= seq![l0.len() as u8] + l0 + wrest);
        assert(buf[pos] == buf.subrange(pos, pos + w.len())[0]);
        assert(buf[pos] == l0.len() as u8);
        assert(1 <= l0.len() <= 63);
        let next = pos + 1 + l0.len();
        assert(buf.subrange(pos + 1, next as int) =~= l0) by {
            assert forall|j: int| 0 <= j < l0.len() implies buf[pos + 1 + j] == l0[j] by {
                assert(buf[pos + 1 + j] == buf.subrange(pos, pos + w.len())[1 + j]);
                assert(w[1 + j] == l0[j]);
            }
        }
        assert(buf.subrange(next as int, next + wrest.len()) =~= wrest) by {
            assert forall|j: int| 0 <= j < wrest.len() implies buf[next + j] == wrest[j] by {
                assert(buf[next + j] == buf.subrange(pos, pos + w.len())[1 + l0.len() + j]);
                assert(w[1 + l0.len() + j] == wrest[j]);
            }
        }
        assert(wrest.len() <= 255);
        lemma_parse_wire_name(rest, buf, next as int);
        assert(seq![l0] + rest =~= ls);
        assert(pos + w.len() == next + wrest.len());
    }
}

/// Each label contributes at least one wire byte.
pub proof fn lemma_wire_labels_len(ls: Seq<Seq<u8>>)
    ensures
        wire_labels(ls).len() >= ls.len(),
    decreases ls.len(),
{
    if ls.len() > 0 {
        lemma_wire_labels_len(ls.skip(1));
    }
}

/// Wire length grows with the number of labels taken.
pub proof fn lemma_wire_name_len_monotone(ls: Seq<Seq<u8>>, i: int)
    requires
        0 <= i <= ls.len(),
    ensures
        wire_name(ls.take(i)).len() <= wire_name(ls).len(),
        i < ls.len() ==> wire_labels(ls.take(i)).len() < wire_name(ls).len() - 1,
{
    assert(ls =~= ls.take(i) + ls.skip(i));
    lemma_wire_labels_add(ls.take(i), ls.skip(i));
    if i < ls.len() {
        lemma_wire_labels_len(ls.skip(i));
    }
}

//---------- Name ------------------------------------------------------------

/// An absolute domain name: the labels from the owner down to, but not
/// including, the root.
pub struct Name {
    pub labels: Vec<Vec<u8>>,
}

impl View for Name {
    type V = Seq<Seq<u8>>;

    open spec fn view(&self) -> Seq<Seq<u8>> {
        labels_view(self.labels@)
    }
}

impl Clone for Name {
    fn clone(&self) -> (r: Self)
        ensures
            r@ == self@,
    {
        let mut labels: Vec<Vec<u8>> = Vec::new();
        let mut i: usize = 0;
        while i < self.labels.len()
            invariant
                i <= self.labels.len(),
                labels@.len() == i,
                forall|j: int| 0 <= j < i ==> #[trigger] labels@[j]@ == self@[j],
            decreases self.labels.len() - i,
        {
            labels.push(self.labels[i].clone());
            i = i + 1;
        }
        let r = Name { labels };
        proof {
            assert(r@ =~= self@);
        }
        r
    }
}

impl Name {
    /// The root name, with no labels at all.
    pub fn root() -> (r: Name)
        ensures
            r@ == Seq::<Seq<u8>>::empty(),
    {
        let r = Name { labels: Vec::new() };
        proof {
            assert(r@ =~= Seq::<Seq<u8>>::empty());
        }
        r
    }

    /// Builds a name from its labels.
    pub fn from_labels(labels: Vec<Vec<u8>>) -> (r: Name)
        ensures
            r@ == labels_view(labels@),
    {
        Name { labels }
    }

    /// True of the root name.
    pub fn is_root(&self) -> (r: bool)
        ensures
            r == (self@.len() == 0),
    {
        self.labels.len() == 0
    }

    /// Number of labels.
    pub fn label_count(&self) -> (r: usize)
        ensures
            r == self@.len(),
    {
        self.labels.len()
    }

    /// Whether the name is well formed: labels within bounds and the whole
    /// wire form within 255 bytes.
    pub fn is_wf(&self) -> (r: bool)
        ensures
            r == wf_name(self@),
    {
        let mut i: usize = 0;
        let mut wire: usize = 1;
        while i < self.labels.len()
            invariant
                i <= self.labels.len(),
                wire == wire_name(self@.take(i as int)).len(),
                wire <= 255,
                forall|j: int| 0 <= j < i ==> label_ok(#[trigger] self@[j]),
            decreases self.labels.len() - i,
        {
            let l = self.labels[i].len();
            if l == 0 || l > 63 {
                proof {
                    assert(!label_ok(self@[i as int]));
                }
                return false;
            }
            proof {
                assert(self@.take(i + 1) =~= self@.take(i as int) + seq![self@[i as int]]);
                lemma_wire_labels_add(self@.take(i as int), seq![self@[i as int]]);
                lemma_wire_labels_single(self@[i as int]);
            }
            if wire > 255 - 1 - l {
                proof {
                    lemma_wire_name_len_monotone(self@, i + 1);
                }
                return false;
            }
            wire = wire + 1 + l;
            i = i + 1;
        }
        proof {
            assert(self@.take(i as int) =~= self@);
        }
        true
    }

    /// Case-insensitive equality with another name.
    pub fn eq_ignore_case(&self, other: &Name) -> (r: bool)
        ensures
            r == (name_key(self@) == name_key(other@)),
    {
        if self.labels.len() != other.labels.len() {
            proof {
                assert(name_key(self@).len() != name_key(other@).len());
            }
            return false;
        }
        let mut i: usize = 0;
        while i < self.labels.len()
            invariant
                i <= self.labels.len(),
                self.labels.len() == other.labels.len(),
                forall|j: int|
                    0 <= j < i ==> #[trigger] lower_bytes(self@[j]) == lower_bytes(other@[j]),
            decreases self.labels.len() - i,
        {
            if !label_eq_ignore_case(&self.labels[i], &other.labels[i]) {
                proof {
                    assert(name_key(self@)[i as int] != name_key(other@)[i as int]);
                }
                return false;
            }
            i = i + 1;
        }
        proof {
            assert(name_key(self@) =~= name_key(other@));
        }
        true
    }

    /// Whether this name is the same as, or an ancestor of, `other`.
    pub fn is_ancestor_of(&self, other: &Name) -> (r: bool)
        ensures
            r == ancestor_of(self@, other@),
    {
        let n = self.labels.len();
        let m = other.labels.len();
        if n > m {
            return false;
        }
        let mut i: usize = 0;
        while i < n
            invariant
                i <= n,
                n == self.labels.len(),
                m == other.labels.len(),
                n <= m,
                forall|j: int|
                    0 <= j < i ==> #[trigger] lower_bytes(self@[n - 1 - j]) == lower_bytes(
                        other@[m - 1 - j],
                    ),
            decreases n - i,
        {
            if !label_eq_ignore_case(&self.labels[n - 1 - i], &other.labels[m - 1 - i]) {
                proof {
                    let j = i as int;
                    if ancestor_of(self@, other@) {
                        assert(name_key(other@).skip(m - n)[n - 1 - j] == name_key(
                            self@,
                        )[n - 1 - j]);
                    }
                }
                return false;
            }
            i = i + 1;
        }
        proof {
            assert forall|j: int| 0 <= j < n implies name_key(other@).skip(m - n)[j] == name_key(
                self@,
            )[j] by {
                let k = n - 1 - j;
                assert(lower_bytes(self@[n - 1 - k]) == lower_bytes(other@[m - 1 - k]));
            }
            assert(name_key(other@).skip(m - n) =~= name_key(self@));
        }
        true
    }

    /// Appends the wire form of this name to `out`.
    pub fn write_wire(&self, out: &mut Vec<u8>)
        requires
            wf_name(self@),
            old(out)@.len() + 256 <= usize::MAX,
        ensures
            final(out)@ == old(out)@ + wire_name(self@),
    {
        let ghost base = out@;
        let mut i: usize = 0;
        while i < self.labels.len()
            invariant
                i <= self.labels.len(),
                wf_name(self@),
                out@ == base + wire_labels(self@.take(i as int)),
                base.len() + 256 <= usize::MAX,
                wire_labels(self@.take(i as int)).len() + 1 <= wire_name(self@).len(),
            decreases self.labels.len() - i,
        {
            proof {
                lemma_wire_name_len_monotone(self@, i + 1);
                assert(self@.take(i + 1) =~= self@.take(i as int) + seq![self@[i as int]]);
                lemma_wire_labels_add(self@.take(i as int), seq![self@[i as int]]);
                lemma_wire_labels_single(self@[i as int]);
            }
            let l = &self.labels[i];
            out.push(l.len() as u8);
            let mut j: usize = 0;
            while j < l.len()
                invariant
                    j <= l.len(),
                    l@ == self@[i as int],
                    out@ == base + wire_labels(self@.take(i as int)) + seq![
                        l@.len() as u8,
                    ] + l@.take(j as int),
                    out@.len() + (l@.len() - j) + 1 <= base.len() + wire_name(self@).len(),
                    base.len() + 256 <= usize::MAX,
                    wire_name(self@).len() <= 256,
                decreases l.len() - j,
            {
                out.push(l[j]);
                j = j + 1;
                proof {
                    assert(l@.take(j as int) =~= l@.take(j - 1) + seq![l@[j - 1]]);
                    assert(out@ =~= base + wire_labels(self@.take(i as int)) + seq![
                        l@.len() as u8,
                    ] + l@.take(j as int));
                }
            }
            i = i + 1;
            proof {
                assert(l@.take(l@.len() as int) =~= l@);
                assert(out@ =~= base + wire_labels(self@.take(i as int)));
            }
        }
        proof {
            assert(self@.take(i as int) =~= self@);
        }
        out.push(0u8);
        proof {
            assert(out@ =~= base + wire_name(self@));
        }
    }

    /// Reads a name from `buf` at `pos`.
    pub fn parse(buf: &Vec<u8>, pos: usize) -> (r: Option<(Name, usize)>)
        requires
            pos <= buf@.len(),
        ensures
            match r {
                Some((n, end)) => {
                    &&& parse_name_at(buf@, pos as int) == Some((n@, end as int))
                    &&& pos < end <= buf@.len()
                },
                None => parse_name_at(buf@, pos as int) is None,
            },
        decreases buf@.len() - pos,
    {
        if pos >= buf.len() {
            return None;
        }
        let len = buf[pos];
        if len == 0 {
            let root = Name { labels: Vec::new() };
            proof {
                assert(root@ =~= Seq::<Seq<u8>>::empty());
            }
            return Some((root, pos + 1));
        }
        if len > 63 {
            return None;
        }
        let len = len as usize;
        if len > buf.len() - pos - 1 {
            return None;
        }
        let mut label: Vec<u8> = Vec::new();
        let mut j: usize = 0;
        while j < len
            invariant
                j <= len,
                pos + 1 + len <= buf@.len(),
                buf@.len() <= usize::MAX,
                label@ == buf@.subrange(pos + 1, pos + 1 + j),
            decreases len - j,
        {
            label.push(buf[pos + 1 + j]);
            j = j + 1;
            proof {
                assert(label@ =~= buf@.subrange(pos + 1, pos + 1 + j));
            }
        }
        match Name::parse(buf, pos + 1 + len) {
            None => None,
            Some((rest, end)) => {
                if end - pos > 255 {
                    return None;
                }
                let ghost lv = label@;
                let ghost rest_view = rest@;
                let mut labels: Vec<Vec<u8>> = Vec::new();
                labels.push(label);
                let mut k: usize = 0;
                let rest = rest;
                while k < rest.labels.len()
                    invariant
                        k <= rest.labels.len(),
                        rest@ == rest_view,
                        labels@.len() == 1 + k,
                        labels@[0]@ == lv,
                        forall|j: int| 1 <= j < 1 + k ==> #[trigger] labels@[j]@ == rest_view[j - 1],
                    decreases rest.labels.len() - k,
                {
                    labels.push(rest.labels[k].clone());
                    k = k + 1;
                }
                let r = Name { labels };
                proof {
                    assert(r@ =~= seq![lv] + rest_view);
                }
                Some((r, end))
            },
        }
    }
}

/// Executable ASCII lowercase of one byte.
pub fn lower_byte_exec(b: u8) -> (r: u8)
    ensures
        r == lower_byte(b),
{
    if 65 <= b && b <= 90 {
        b + 32
    } else {
        b
    }
}

/// Executable ASCII lowercase of a label.
pub fn lower_label(l: &Vec<u8>) -> (r: Vec<u8>)
    ensures
        r@ == lower_bytes(l@),
{
    let mut out: Vec<u8> = Vec::new();
    let mut i: usize = 0;
    while i < l.len()
        invariant
            i <= l.len(),
            out@ == lower_bytes(l@).take(i as int),
        decreases l.len() - i,
    {
        out.push(lower_byte_exec(l[i]));
        i = i + 1;
        proof {
            assert(out@ =~= lower_bytes(l@).take(i as int));
        }
    }
    proof {
        assert(out@ =~= lower_bytes(l@));
    }
    out
}

/// Case-insensitive equality of two labels.
pub fn label_eq_ignore_case(a: &Vec<u8>, b: &Vec<u8>) -> (r: bool)
    ensures
        r == (lower_bytes(a@) == lower_bytes(b@)),
{
    if a.len() != b.len() {
        proof {
            assert(lower_bytes(a@).len() != lower_bytes(b@).len());
        }
        return false;
    }
    let mut i: usize = 0;
    while i < a.len()
        invariant
            i <= a.len(),
            a.len() == b.len(),
            forall|j: int| 0 <= j < i ==> lower_byte(a@[j]) == lower_byte(b@[j]),
        decreases a.len() - i,
    {
        if lower_byte_exec(a[i]) != lower_byte_exec(b[i]) {
            proof {
                assert(lower_bytes(a@)[i as int] != lower_bytes(b@)[i as int]);
            }
            return false;
        }
        i = i + 1;
    }
    proof {
        assert(lower_bytes(a@) =~= lower_bytes(b@));
    }
    true
}

} // verus!
