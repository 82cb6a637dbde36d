//! Encoding of target labels as integers `0..n_classes`.

use vstd::prelude::*;
use crate::error::{is_empty_input, is_not_fitted, is_unknown_label, DatarustError, Result};
use crate::text::{decimal, is_strictly_sorted, locate, sorted_unique, strictly_sorted, texts, usize_text};

verus! {

/// The texts of a slice of string slices.
pub open spec fn strs(v: Seq<&str>) -> Seq<Seq<char>> {
    v.map_values(|s: &str| s@)
}

/// Every label is one of the classes.
pub open spec fn all_known(classes: Seq<Seq<char>>, labels: Seq<Seq<char>>) -> bool {
    forall|i: int| 0 <= i < labels.len() ==> classes.contains(#[trigger] labels[i])
}

/// Label `i` is the first that is not one of the classes.
pub open spec fn first_unknown(classes: Seq<Seq<char>>, labels: Seq<Seq<char>>, i: int) -> bool {
    &&& 0 <= i < labels.len()
    &&& !classes.contains(labels[i])
    &&& forall|k: int| 0 <= k < i ==> classes.contains(#[trigger] labels[k])
}

/// `codes[i]` is the position of `labels[i]` among the classes.
pub open spec fn encodes(
    classes: Seq<Seq<char>>,
    labels: Seq<Seq<char>>,
    codes: Seq<usize>,
) -> bool {
    &&& codes.len() == labels.len()
    &&& forall|i: int|
        0 <= i < labels.len() ==> #[trigger] codes[i] < classes.len() && classes[codes[i] as int]
            == labels[i]
}

/// Every code names a class.
pub open spec fn all_in_range(n: nat, codes: Seq<usize>) -> bool {
    forall|i: int| 0 <= i < codes.len() ==> #[trigger] codes[i] < n
}

/// Code `k` is the first that names no class.
pub open spec fn first_out_of_range(n: nat, codes: Seq<usize>, k: int) -> bool {
    &&& 0 <= k < codes.len()
    &&& codes[k] >= n
    &&& forall|j: int| 0 <= j < k ==> #[trigger] codes[j] < n
}

/// The classes that `codes` name.
pub open spec fn decode(classes: Seq<Seq<char>>, codes: Seq<usize>) -> Seq<Seq<char>> {
    Seq::new(codes.len(), |i: int| classes[codes[i] as int])
}

/// The set of texts of a sequence.
pub open spec fn same_texts(a: Seq<Seq<char>>, b: Seq<Seq<char>>) -> bool {
    forall|x: Seq<char>| a.contains(x) <==> b.contains(x)
}

/// Decoding the codes of known labels gives the labels back.
pub proof fn lemma_decode_encode(classes: Seq<Seq<char>>, labels: Seq<Seq<char>>, codes: Seq<usize>)
    requires
        encodes(classes, labels, codes),
    ensures
        decode(classes, codes) == labels,
{
    assert(decode(classes, codes) =~= labels);
}

/// Encoding the labels that codes name gives the codes back, when no class
/// occurs twice.
pub proof fn lemma_encode_decode(classes: Seq<Seq<char>>, codes: Seq<usize>, again: Seq<usize>)
    requires
        crate::text::no_duplicates(classes),
        all_in_range(classes.len(), codes),
        encodes(classes, decode(classes, codes), again),
    ensures
        again == codes,
{
    assert forall|i: int| 0 <= i < codes.len() implies again[i] == codes[i] by {
        assert(classes[again[i] as int] == classes[codes[i] as int]);
        if again[i] < codes[i] {
            assert(classes[again[i] as int] != classes[codes[i] as int]);
        } else if again[i] > codes[i] {
            assert(classes[codes[i] as int] != classes[again[i] as int]);
        }
    }
    assert(again =~= codes);
}

/// Encode target labels with values between `0` and `n_classes - 1`. Classes
/// are the distinct labels seen at fit time, sorted in the order of `str`.
pub struct LabelEncoder {
    classes: Vec<String>,
    fitted: bool,
}

impl LabelEncoder {
    /// Sorted, free of duplicates, and fitted exactly when classes are known.
    #[verifier::type_invariant]
    spec fn inv(self) -> bool {
        &&& strictly_sorted(texts(self.classes@))
        &&& self.fitted <==> self.classes@.len() > 0
    }

    /// The learned classes, in ascending order.
    pub closed spec fn spec_classes(&self) -> Seq<Seq<char>> {
        texts(self.classes@)
    }

    /// Whether `fit` has succeeded.
    pub closed spec fn spec_fitted(&self) -> bool {
        self.fitted
    }

    /// An unfitted encoder.
    pub fn new() -> (r: Self)
        ensures
            !r.spec_fitted(),
            r.spec_classes().len() == 0,
    {
        let r = LabelEncoder { classes: Vec::new(), fitted: false };
        assert(texts(r.classes@) =~= Seq::empty());
        r
    }

    /// The learned classes, in ascending order.
    pub fn classes(&self) -> (r: &[String])
        ensures
            texts(r@) == self.spec_classes(),
            strictly_sorted(self.spec_classes()),
            self.spec_fitted() <==> self.spec_classes().len() > 0,
    {
        proof {
            use_type_invariant(self);
        }
        self.classes.as_slice()
    }

    /// Learns the distinct labels, sorted. An empty input is refused and
    /// leaves the encoder as it was.
    pub fn fit(&mut self, labels: &[&str]) -> (r: Result<()>)
        ensures
            labels@.len() == 0 ==> is_empty_input(r, "no labels to fit"@)
                && final(self).spec_classes() == old(self).spec_classes()
                && final(self).spec_fitted() == old(self).spec_fitted(),
            labels@.len() > 0 ==> r is Ok && final(self).spec_fitted() && strictly_sorted(
                final(self).spec_classes(),
            ) && same_texts(final(self).spec_classes(), strs(labels@)),
    {
        let n = labels.len();
        let mut owned: Vec<String> = Vec::new();
        for i in 0..n
            invariant
                n == labels@.len(),
                owned@.len() == i,
                forall|k: int| 0 <= k < i ==> (#[trigger] owned@[k])@ == labels@[k]@,
        {
            owned.push(labels[i].to_owned());
        }
        assert(texts(owned@) =~= strs(labels@));
        let seen = sorted_unique(owned.as_slice());
        if seen.len() == 0 {
            proof {
                if n > 0 {
                    assert(texts(owned@)[0] == labels@[0]@);
                    assert(texts(owned@).contains(labels@[0]@));
                    assert(!texts(seen@).contains(labels@[0]@));
                }
            }
            return Err(DatarustError::EmptyInput("no labels to fit".to_owned()));
        }
        assert(texts(seen@).contains(texts(seen@)[0]));
        *self = LabelEncoder { classes: seen, fitted: true };
        Ok(())
    }

    /// Codes of the labels: the position of each among the classes.
    pub fn transform(&self, labels: &[&str]) -> (r: Result<Vec<usize>>)
        ensures
            !self.spec_fitted() ==> is_not_fitted(r, "LabelEncoder"@),
            self.spec_fitted() && !all_known(self.spec_classes(), strs(labels@)) ==> exists|i: int|
                #[trigger] first_unknown(self.spec_classes(), strs(labels@), i)
                    && is_unknown_label(r, labels@[i]@),
            self.spec_fitted() && all_known(self.spec_classes(), strs(labels@)) ==> (r matches Ok(
                codes,
            ) && encodes(self.spec_classes(), strs(labels@), codes@)),
    {
        proof {
            use_type_invariant(self);
        }
        if !self.fitted {
            return Err(DatarustError::NotFitted("LabelEncoder".to_owned()));
        }
        let ghost c = self.spec_classes();
        let ghost ls = strs(labels@);
        let n = labels.len();
        let mut out: Vec<usize> = Vec::new();
        for i in 0..n
            invariant
                n == labels@.len(),
                c == texts(self.classes@),
                self.spec_fitted(),
                ls == strs(labels@),
                strictly_sorted(c),
                out@.len() == i,
                forall|k: int| 0 <= k < i ==> c.contains(#[trigger] ls[k]),
                forall|k: int|
                    0 <= k < i ==> #[trigger] out@[k] < c.len() && c[out@[k] as int] == ls[k],
        {
            let slot = locate(self.classes.as_slice(), labels[i]);
            if !slot.found {
                assert(first_unknown(c, ls, i as int));
                return Err(DatarustError::UnknownLabel(labels[i].to_owned()));
            }
            assert(c[slot.position as int] == ls[i as int]);
            out.push(slot.position);
        }
        Ok(out)
    }

    /// Fits on the labels, then encodes them.
    pub fn fit_transform(&mut self, labels: &[&str]) -> (r: Result<Vec<usize>>)
        ensures
            labels@.len() == 0 ==> is_empty_input(r, "no labels to fit"@)
                && final(self).spec_classes() == old(self).spec_classes()
                && final(self).spec_fitted() == old(self).spec_fitted(),
            labels@.len() > 0 ==> final(self).spec_fitted() && strictly_sorted(
                final(self).spec_classes(),
            ) && same_texts(final(self).spec_classes(), strs(labels@)) && (r matches Ok(codes)
                && encodes(final(self).spec_classes(), strs(labels@), codes@)),
    {
        match self.fit(labels) {
            Err(e) => Err(e),
            Ok(()) => {
                let ghost c = self.spec_classes();
                assert forall|i: int| 0 <= i < labels@.len() implies c.contains(
                    #[trigger] strs(labels@)[i],
                ) by {
                    assert(strs(labels@).contains(strs(labels@)[i]));
                }
                self.transform(labels)
            },
        }
    }

    /// The classes that the codes name.
    pub fn inverse_transform(&self, indices: &[usize]) -> (r: Result<Vec<String>>)
        ensures
            !self.spec_fitted() ==> is_not_fitted(r, "LabelEncoder"@),
            self.spec_fitted() && !all_in_range(self.spec_classes().len(), indices@) ==> exists|
                k: int,
            |
                #[trigger] first_out_of_range(self.spec_classes().len(), indices@, k)
                    && is_unknown_label(r, "index "@ + decimal(indices@[k] as nat)),
            self.spec_fitted() && all_in_range(self.spec_classes().len(), indices@) ==> (r matches Ok(
                out,
            ) && texts(out@) == decode(self.spec_classes(), indices@)),
    {
        proof {
            use_type_invariant(self);
        }
        if !self.fitted {
            return Err(DatarustError::NotFitted("LabelEncoder".to_owned()));
        }
        let ghost c = self.spec_classes();
        let n = indices.len();
        let len = self.classes.len();
        let mut out: Vec<String> = Vec::new();
        for k in 0..n
            invariant
                n == indices@.len(),
                len == c.len(),
                c == texts(self.classes@),
                self.spec_fitted(),
                out@.len() == k,
                forall|j: int| 0 <= j < k ==> #[trigger] indices@[j] < len,
                forall|j: int| 0 <= j < k ==> (#[trigger] out@[j])@ == c[indices@[j] as int],
        {
            let i = indices[k];
            if i >= len {
                let mut m = "index ".to_owned();
                let d = usize_text(i);
                m.append(d.as_str());
                assert(first_out_of_range(len as nat, indices@, k as int));
                return Err(DatarustError::UnknownLabel(m));
            }
            out.push(self.classes[i].clone());
        }
        assert(texts(out@) =~= decode(c, indices@));
        Ok(out)
    }
}

impl Default for LabelEncoder {
    fn default() -> (r: Self)
        ensures
            !r.spec_fitted(),
            r.spec_classes().len() == 0,
    {
        Self::new()
    }
}

impl LabelEncoder {
    /// Rebuilds an encoder from its saved classes and fit flag. A state no
    /// encoder can be in (classes not sorted and distinct, or classes known
    /// exactly when not fitted) gives `None`.
    pub fn restore(classes: Vec<String>, fitted: bool) -> (r: Option<Self>)
        ensures
            ({
                let valid = strictly_sorted(texts(classes@)) && (fitted <==> classes@.len() > 0);
                &&& valid ==> (r matches Some(e) && e.spec_classes() == texts(classes@)
                    && e.spec_fitted() == fitted)
                &&& !valid ==> r is None
            }),
    {
        if fitted != (classes.len() > 0) {
            return None;
        }
        if !is_strictly_sorted(classes.as_slice()) {
            return None;
        }
        Some(LabelEncoder { classes, fitted })
    }
}

} // verus!
