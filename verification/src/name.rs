use vstd::prelude::*;

verus! {

/// A fully-qualified DNS name: an ordered sequence of labels, leftmost
/// (most specific) first.  The root name has no labels.
///
/// Labels are ASCII bytes normalized to lower case on construction, so
/// structural equality of the views coincides with DNS's case-insensitive
/// name equality.
#[derive(Debug, Hash)]
pub struct Name {
    labels: Vec<Vec<u8>>,
}

/// ASCII lower-casing of one byte.
pub open spec fn lower_byte(b: u8) -> u8 {
    if 65 <= b && b <= 90 {
        (b + 32) as u8
    } else {
        b
    }
}

/// A label as stored in a `Name`: nonempty, ASCII, already lower case.
pub open spec fn label_wf(l: Seq<u8>) -> bool {
    &&& l.len() > 0
    &&& forall|i: int| 0 <= i < l.len() ==> (#[trigger] l[i]) < 128 && lower_byte(l[i]) == l[i]
}

/// Every label of the name is well-formed.
pub open spec fn name_wf(n: Seq<Seq<u8>>) -> bool {
    forall|i: int| 0 <= i < n.len() ==> label_wf(#[trigger] n[i])
}

/// `a` is an ancestor of, or equal to, `b`: `a`'s labels are a suffix of
/// `b`'s labels.
pub open spec fn zone_of_spec(a: Seq<Seq<u8>>, b: Seq<Seq<u8>>) -> bool {
    &&& a.len() <= b.len()
    &&& a =~= b.skip(b.len() - a.len())
}

/// A candidate label is acceptable if it is nonempty ASCII; lower-casing
/// happens on construction.
pub open spec fn label_ok(l: Seq<u8>) -> bool {
    &&& l.len() > 0
    &&& forall|i: int| 0 <= i < l.len() ==> (#[trigger] l[i]) < 128
}

/// One label after normalization: each byte lower-cased.
pub open spec fn lower_label(l: Seq<u8>) -> Seq<u8> {
    l.map_values(|b: u8| lower_byte(b))
}

impl View for Name {
    type V = Seq<Seq<u8>>;

    closed spec fn view(&self) -> Seq<Seq<u8>> {
        Seq::new(self.labels@.len(), |i: int| self.labels@[i]@)
    }
}

impl Name {
    /// The well-formedness of this name: all labels nonempty, ASCII and
    /// lower case.  Every `Name` satisfies it by construction.
    #[verifier::type_invariant]
    pub open spec fn wf(&self) -> bool {
        name_wf(self@)
    }

    /// The root name, with no labels.
    pub fn root() -> (r: Name)
        ensures
            r@ =~= Seq::<Seq<u8>>::empty(),
            r.wf(),
    {
        Name { labels: Vec::new() }
    }

    /// Builds a name from its labels, leftmost first, lower-casing every
    /// byte.  Returns `None` when a label is empty or holds a non-ASCII
    /// byte.
    pub fn from_labels(labels: &Vec<Vec<u8>>) -> (r: Option<Name>)
        ensures
            match r {
                Some(n) => {
                    &&& forall|i: int| 0 <= i < labels@.len() ==> label_ok(#[trigger] labels@[i]@)
                    &&& n@ =~= Seq::new(labels@.len(), |i: int| lower_label(labels@[i]@))
                    &&& n.wf()
                },
                None => exists|i: int| 0 <= i < labels@.len() && !label_ok(#[trigger] labels@[i]@),
            },
    {
        let mut out: Vec<Vec<u8>> = Vec::new();
        let mut i: usize = 0;
        while i < labels.len()
            invariant
                0 <= i <= labels@.len(),
                out@.len() == i,
                forall|j: int| 0 <= j < i ==> label_ok(#[trigger] labels@[j]@),
                forall|j: int| 0 <= j < i ==> (#[trigger] out@[j]@) =~= lower_label(labels@[j]@),
                forall|j: int| 0 <= j < i ==> label_wf(#[trigger] out@[j]@),
            decreases labels@.len() - i,
        {
            let lab = &labels[i];
            if lab.len() == 0 {
                assert(!label_ok(labels@[i as int]@));
                return None;
            }
            let mut norm: Vec<u8> = Vec::new();
            let mut j: usize = 0;
            while j < lab.len()
                invariant
                    0 <= j <= lab@.len(),
                    0 <= i < labels@.len(),
                    *lab == labels@[i as int],
                    norm@.len() == j,
                    forall|k: int| 0 <= k < j ==> (#[trigger] lab@[k]) < 128,
                    forall|k: int| 0 <= k < j ==> (#[trigger] norm@[k]) == lower_byte(lab@[k]),
                decreases lab@.len() - j,
            {
                let b = lab[j];
                if b >= 128 {
                    proof {
                        assert(*lab == labels@[i as int]);
                        assert(lab@[j as int] >= 128);
                        assert(!label_ok(labels@[i as int]@));
                    }
                    return None;
                }
                if 65 <= b && b <= 90 {
                    norm.push(b + 32);
                } else {
                    norm.push(b);
                }
                j += 1;
            }
            assert(norm@ =~= lower_label(lab@));
            assert(label_wf(norm@));
            out.push(norm);
            i += 1;
        }
        let n = Name { labels: out };
        assert(n@ =~= Seq::new(labels@.len(), |k: int| lower_label(labels@[k]@)));
        Some(n)
    }

    /// The number of labels.
    pub fn num_labels(&self) -> (r: usize)
        ensures
            r == self@.len(),
    {
        self.labels.len()
    }

    /// The name with its leftmost label stripped; the root is its own base.
    pub fn base_name(&self) -> (r: Name)
        ensures
            self@.len() > 0 ==> r@ =~= self@.skip(1),
            self@.len() == 0 ==> r@ =~= self@,
            r.wf(),
    {
        proof {
            use_type_invariant(self);
        }
        let mut out: Vec<Vec<u8>> = Vec::new();
        if self.labels.len() == 0 {
            let r = Name { labels: out };
            assert(r@ =~= self@);
            return r;
        }
        let mut i: usize = 1;
        while i < self.labels.len()
            invariant
                1 <= i <= self.labels@.len(),
                out@.len() == i - 1,
                forall|j: int| 0 <= j < i - 1 ==> (#[trigger] out@[j]@) =~= self@[j + 1],
            decreases self.labels@.len() - i,
        {
            out.push(clone_bytes(&self.labels[i]));
            i += 1;
        }
        proof {
            assert forall|j: int| 0 <= j < out@.len() implies label_wf((#[trigger] out@[j])@) by {
                assert(out@[j]@ =~= self@[j + 1]);
            }
        }
        let r = Name { labels: out };
        assert(r@ =~= self@.skip(1));
        r
    }

    /// Is `self` an ancestor of, or equal to, `child`?
    pub fn zone_of(&self, child: &Name) -> (r: bool)
        ensures
            r == zone_of_spec(self@, child@),
    {
        let n = self.labels.len();
        let m = child.labels.len();
        if n > m {
            return false;
        }
        let off = m - n;
        let mut i: usize = 0;
        while i < n
            invariant
                0 <= i <= n,
                n == self@.len(),
                m == child@.len(),
                n <= m,
                off == m - n,
                forall|j: int| 0 <= j < i ==> (#[trigger] self@[j]) =~= child@[off + j],
            decreases n - i,
        {
            if !bytes_eq(&self.labels[i], &child.labels[off + i]) {
                assert(self@[i as int] != child@[off + i]);
                assert(!zone_of_spec(self@, child@)) by {
                    if zone_of_spec(self@, child@) {
                        assert(self@[i as int] == child@.skip(off as int)[i as int]);
                    }
                }
                return false;
            }
            i += 1;
        }
        assert(self@ =~= child@.skip(off as int));
        true
    }
}

/// The dotted text of a name: its labels joined by `.` (byte 46); the
/// root renders as the empty text.
pub open spec fn name_text(n: Seq<Seq<u8>>) -> Seq<u8>
    decreases n.len(),
{
    if n.len() == 0 {
        Seq::empty()
    } else if n.len() == 1 {
        n[0]
    } else {
        name_text(n.drop_last()) + seq![46u8] + n.last()
    }
}

/// The characters an ASCII byte sequence decodes to.
pub open spec fn ascii_chars(bytes: Seq<u8>) -> Seq<char> {
    bytes.map_values(|b: u8| b as char)
}

/// Relies on `String::from_utf8`: ASCII bytes decode to exactly the same
/// characters.
#[verifier::external_body]
fn ascii_to_string(bytes: Vec<u8>) -> (r: String)
    requires
        forall|i: int| 0 <= i < bytes@.len() ==> (#[trigger] bytes@[i]) < 128,
    ensures
        r@ == ascii_chars(bytes@),
{
    String::from_utf8(bytes).unwrap_or_default()
}

impl Name {
    /// The dotted text of this name, for messages; per `name_text`.
    pub fn to_display(&self) -> (r: String)
        ensures
            r@ == ascii_chars(name_text(self@)),
    {
        proof {
            use_type_invariant(self);
        }
        let mut bytes: Vec<u8> = Vec::new();
        let mut i: usize = 0;
        proof {
            assert(name_text(self@.take(0)) =~= Seq::<u8>::empty()) by {
                assert(self@.take(0).len() == 0);
            }
            assert(bytes@ =~= name_text(self@.take(0)));
        }
        while i < self.labels.len()
            invariant
                0 <= i <= self@.len(),
                self@.len() == self.labels@.len(),
                name_wf(self@),
                bytes@ =~= name_text(self@.take(i as int)),
                forall|j: int| 0 <= j < bytes@.len() ==> (#[trigger] bytes@[j]) < 128,
            decreases self@.len() - i,
        {
            let ghost before = bytes@;
            if i > 0 {
                bytes.push(46);
            }
            let lab = &self.labels[i];
            let mut j: usize = 0;
            let ghost mid = bytes@;
            while j < lab.len()
                invariant
                    0 <= j <= lab@.len(),
                    0 <= i < self@.len(),
                    *lab == self.labels@[i as int],
                    lab@ == self@[i as int],
                    name_wf(self@),
                    bytes@ =~= mid + lab@.take(j as int),
                    forall|k: int| 0 <= k < mid.len() ==> (#[trigger] mid[k]) < 128,
                decreases lab@.len() - j,
            {
                bytes.push(lab[j]);
                proof {
                    assert(lab@.take(j + 1) =~= lab@.take(j as int).push(lab@[j as int]));
                }
                j += 1;
            }
            proof {
                assert(lab@.take(lab@.len() as int) =~= lab@);
                let t1 = self@.take(i + 1);
                if i == 0 {
                    assert(t1.len() == 1);
                    assert(t1[0] == self@[0]);
                    assert(name_text(t1) == t1[0]);
                    assert(bytes@ =~= mid + lab@);
                    assert(mid =~= Seq::<u8>::empty());
                    assert(bytes@ =~= name_text(t1));
                } else {
                    assert(t1.drop_last() =~= self@.take(i as int));
                    assert(t1.last() == self@[i as int]);
                    assert(t1.len() >= 2);
                    assert(name_text(t1) == name_text(self@.take(i as int)) + seq![46u8]
                        + self@[i as int]);
                    assert(mid =~= before.push(46));
                    assert(bytes@ =~= name_text(t1));
                }
                assert forall|k: int| 0 <= k < bytes@.len() implies (#[trigger] bytes@[k])
                    < 128 by {
                    if mid.len() <= k {
                        assert(bytes@[k] == lab@[k - mid.len()]);
                        assert(label_wf(self@[i as int]));
                    }
                }
            }
            i += 1;
        }
        proof {
            assert(self@.take(self@.len() as int) =~= self@);
        }
        ascii_to_string(bytes)
    }
}

/// Byte-for-byte equality of two byte vectors.
pub fn bytes_eq(a: &Vec<u8>, b: &Vec<u8>) -> (r: bool)
    ensures
        r == (a@ == b@),
{
    if a.len() != b.len() {
        return false;
    }
    let mut i: usize = 0;
    while i < a.len()
        invariant
            0 <= i <= a@.len(),
            a@.len() == b@.len(),
            forall|j: int| 0 <= j < i ==> a@[j] == b@[j],
        decreases a@.len() - i,
    {
        if a[i] != b[i] {
            return false;
        }
        i += 1;
    }
    assert(a@ =~= b@);
    true
}

/// A copy of a byte vector, equal to its source.
pub fn clone_bytes(a: &Vec<u8>) -> (r: Vec<u8>)
    ensures
        r@ == a@,
{
    let mut out: Vec<u8> = Vec::new();
    let mut i: usize = 0;
    while i < a.len()
        invariant
            0 <= i <= a@.len(),
            out@.len() == i,
            forall|j: int| 0 <= j < i ==> out@[j] == a@[j],
        decreases a@.len() - i,
    {
        out.push(a[i]);
        i += 1;
    }
    assert(out@ =~= a@);
    out
}

impl Clone for Name {
    fn clone(&self) -> (r: Self)
        ensures
            r@ == self@,
    {
        proof {
            use_type_invariant(self);
        }
        let mut out: Vec<Vec<u8>> = Vec::new();
        let mut i: usize = 0;
        while i < self.labels.len()
            invariant
                0 <= i <= self.labels@.len(),
                out@.len() == i,
                forall|j: int| 0 <= j < i ==> (#[trigger] out@[j]@) == self@[j],
            decreases self.labels@.len() - i,
        {
            out.push(clone_bytes(&self.labels[i]));
            i += 1;
        }
        proof {
            assert forall|j: int| 0 <= j < out@.len() implies label_wf((#[trigger] out@[j])@) by {
                assert(out@[j]@ =~= self@[j]);
            }
        }
        let r = Name { labels: out };
        assert(r@ =~= self@);
        r
    }
}

impl PartialEq for Name {
    fn eq(&self, other: &Name) -> (r: bool) {
        let n = self.labels.len();
        if n != other.labels.len() {
            proof {
                assert(self@.len() != other@.len());
            }
            return false;
        }
        let mut i: usize = 0;
        while i < n
            invariant
                0 <= i <= n,
                n == self@.len(),
                n == other@.len(),
                forall|j: int| 0 <= j < i ==> (#[trigger] self@[j]) == other@[j],
            decreases n - i,
        {
            if !bytes_eq(&self.labels[i], &other.labels[i]) {
                assert(self@[i as int] != other@[i as int]);
                return false;
            }
            i += 1;
        }
        assert(self@ =~= other@);
        true
    }
}

impl Eq for Name {

}

impl vstd::std_specs::cmp::PartialEqSpecImpl for Name {
    open spec fn obeys_eq_spec() -> bool {
        true
    }

    open spec fn eq_spec(&self, other: &Name) -> bool {
        self@ == other@
    }
}

} // verus!
