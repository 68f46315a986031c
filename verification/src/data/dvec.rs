use vstd::prelude::*;

verus! {

/// A vector of equally sized elements kept as raw bytes: element `i`
/// occupies bytes `i * size .. (i + 1) * size`.
#[derive(Debug)]
pub struct DVec {
    data: Vec<u8>,
    data_size: usize,
}

impl DVec {
    /// All bytes, element after element.
    pub closed spec fn bytes(&self) -> Seq<u8> {
        self.data@
    }

    /// The size of one element in bytes.
    pub closed spec fn size(&self) -> usize {
        self.data_size
    }

    /// The bytes hold a whole number of elements (none when the size is 0).
    pub open spec fn wf(&self) -> bool {
        if self.size() == 0 {
            self.bytes().len() == 0
        } else {
            (self.bytes().len() as int) % (self.size() as int) == 0
        }
    }

    /// The number of elements.
    pub open spec fn count(&self) -> nat {
        if self.size() == 0 {
            0
        } else {
            self.bytes().len() / (self.size() as nat)
        }
    }

    /// The bytes of element `i`.
    pub open spec fn elem(&self, i: int) -> Seq<u8> {
        self.bytes().subrange(i * self.size(), i * self.size() + self.size())
    }

    /// The elements, in order.
    pub open spec fn elems(&self) -> Seq<Seq<u8>> {
        Seq::new(self.count(), |i: int| self.elem(i))
    }

    pub fn create(size: usize) -> (v: Self)
        ensures
            v.size() == size,
            v.bytes() == Seq::<u8>::empty(),
            v.wf(),
            v.elems() == Seq::<Seq<u8>>::empty(),
    {
        DVec::create_with_reserve(size, 0)
    }

    pub fn create_with_reserve(size: usize, reserve: usize) -> (v: Self)
        requires
            reserve * size <= usize::MAX,
        ensures
            v.size() == size,
            v.bytes() == Seq::<u8>::empty(),
            v.wf(),
            v.elems() == Seq::<Seq<u8>>::empty(),
    {
        let v = DVec { data: Vec::with_capacity(reserve * size), data_size: size };
        assert(v.elems() =~= Seq::<Seq<u8>>::empty());
        v
    }

    /// Appends `additional` copies of the element whose bytes begin `inplace`.
    /// Nothing happens when the element size is 0.
    pub fn resize(&mut self, additional: usize, inplace: &[u8])
        requires
            old(self).wf(),
            inplace@.len() >= old(self).size(),
            additional * old(self).size() <= usize::MAX,
        ensures
            final(self).wf(),
            final(self).size() == old(self).size(),
            old(self).size() == 0 ==> final(self).bytes() == old(self).bytes(),
            old(self).size() > 0 ==> final(self).bytes() == old(self).bytes() + Seq::new(
                (additional * old(self).size()) as nat,
                |i: int| inplace@[i % (old(self).size() as int)],
            ),
            final(self).elems() == old(self).elems() + Seq::new(
                if old(self).size() == 0 { 0 } else { additional as nat },
                |i: int| inplace@.subrange(0, old(self).size() as int),
            ),
    {
        if self.data_size == 0 {
            return;
        }
        let size = self.data_size;
        self.data.reserve(additional * size);
        let ghost start = self.data@;
        let mut a: usize = 0;
        while a < additional
            invariant
                size == self.data_size,
                size == old(self).data_size,
                size > 0,
                a <= additional,
                additional * size <= usize::MAX,
                inplace@.len() >= size,
                start == old(self).data@,
                self.data@ == start + Seq::new((a * size) as nat, |i: int| inplace@[i % (size as int)]),
            decreases additional - a,
        {
            let mut b: usize = 0;
            while b < size
                invariant
                    size == self.data_size,
                    size > 0,
                    a < additional,
                    b <= size,
                    additional * size <= usize::MAX,
                    inplace@.len() >= size,
                    self.data@ == start + Seq::new((a * size + b) as nat, |i: int| inplace@[i % (size as int)]),
                decreases size - b,
            {
                proof {
                    assert((a * size + b) % (size as int) == b) by (nonlinear_arith)
                        requires
                            b < size,
                            size > 0,
                    ;
                }
                self.data.push(inplace[b]);
                proof {
                    assert(self.data@ =~= start + Seq::new((a * size + b + 1) as nat, |i: int| inplace@[i % (size as int)]));
                }
                b = b + 1;
            }
            proof {
                assert(a * size + size == (a + 1) * size) by (nonlinear_arith);
                assert((a + 1) * size <= additional * size) by (nonlinear_arith)
                    requires
                        a < additional,
                ;
            }
            a = a + 1;
        }
        proof {
            self.lemma_resized(start, additional, inplace@);
        }
    }

    /// Moves the last element into element `idx` and drops the last element.
    /// Returns `None`, changing nothing, when `idx` is not an element (so
    /// always when the element size is 0).
    pub fn swap_remove(&mut self, idx: usize) -> (r: Option<()>)
        requires
            old(self).wf(),
        ensures
            final(self).wf(),
            final(self).size() == old(self).size(),
            r is Some <==> idx < old(self).count(),
            r is Some ==> final(self).elems() == old(self).elems().update(
                idx as int,
                old(self).elems().last(),
            ).drop_last(),
            r is None ==> final(self).bytes() == old(self).bytes(),
    {
        if self.len() == 0 || idx >= self.len() {
            return None;
        }
        let size = self.data_size;
        let ghost n = old(self).count();
        let ghost ob = old(self).data@;
        proof {
            assert(size > 0);
            lemma_count_mul(ob, size);
            assert(idx * size + size <= n * size) by (nonlinear_arith)
                requires
                    idx < n,
                    size > 0,
            ;
            assert((n - 1) * size + size == n * size) by (nonlinear_arith);
        }
        let mut b: usize = size;
        while b > 0
            invariant
                size == self.data_size,
                size > 0,
                b <= size,
                idx < n,
                ob.len() == n * size,
                idx * size + size <= n * size,
                (n - 1) * size + size == n * size,
                self.data@.len() == ob.len() - (size - b),
                forall|p: int|
                    0 <= p < self.data@.len() ==> #[trigger] self.data@[p] == if idx * size + b
                        <= p < idx * size + size {
                        ob[(n - 1) * size + (p - idx * size)]
                    } else {
                        ob[p]
                    },
            decreases b,
        {
            b = b - 1;
            let last = self.data.len() - 1;
            let rm = self.data[last];
            proof {
                assert(last == (n - 1) * size + b);
                if idx + 1 < n {
                    assert(idx * size + size <= (n - 1) * size) by (nonlinear_arith)
                        requires
                            idx + 1 < n,
                    ;
                }
                assert(rm == ob[(n - 1) * size + b]);
            }
            self.data.set(idx * size + b, rm);
            self.data.pop();
        }
        proof {
            let ne = (n - 1) as nat;
            let e = old(self).elems().update(idx as int, old(self).elems().last()).drop_last();
            assert(self.data@.len() == ne * size) by (nonlinear_arith)
                requires
                    self.data@.len() == n * size - size,
                    ne == n - 1,
            ;
            assert forall|j: int, t: int| 0 <= j < ne && 0 <= t < size implies #[trigger] self.data@[j * size + t]
                == e[j][t] by {
                lemma_index_in_elem(j, t, size as int, ne as int);
                lemma_elem_byte(ob, size, j, t);
                lemma_elem_byte(ob, size, (n - 1) as int, t);
                if j == idx {
                } else {
                    lemma_other_elem_disjoint(j, idx as int, t, size as int);
                }
            }
            assert forall|j: int| 0 <= j < e.len() implies (#[trigger] e[j]).len() == size by {
                lemma_elem_byte(ob, size, j, 0);
                lemma_elem_byte(ob, size, (n - 1) as int, 0);
            }
            lemma_split(self.data@, size, e);
            lemma_count_split(self.data@, size, ne);
        }
        Some(())
    }

    /// The bytes fit in memory: their count is a `usize`.
    pub proof fn lemma_bytes_fit(&self)
        ensures
            self.bytes().len() <= usize::MAX,
    {
        broadcast use vstd::std_specs::vec::axiom_spec_len;

        assert(vstd::std_specs::vec::spec_vec_len(&self.data) == self.data@.len());
    }

    /// The bytes are the elements laid out one after another.
    pub proof fn lemma_bytes_elems(&self)
        requires
            self.wf(),
        ensures
            self.bytes().len() == self.elems().len() * self.size(),
            self.size() > 0 ==> split_elems(self.bytes(), self.size()) == self.elems(),
    {
        if self.size() > 0 {
            lemma_count_mul(self.bytes(), self.size());
            assert(split_elems(self.bytes(), self.size()) =~= self.elems());
        }
    }

    /// All bytes, element after element.
    pub fn ptr(&self) -> (r: &[u8])
        ensures
            r@ == self.bytes(),
    {
        self.data.as_slice()
    }

    /// The bytes of element `idx`, if there is one.
    pub fn get(&self, idx: usize) -> (r: Option<&[u8]>)
        requires
            self.wf(),
            idx * self.size() <= usize::MAX,
        ensures
            r is Some <==> idx < self.count(),
            r matches Some(bytes) ==> bytes@ == self.elems()[idx as int],
    {
        let size = self.data_size;
        let start = idx * size;
        if start < self.data.len() {
            proof {
                lemma_count_mul(self.data@, size);
                assert(size > 0);
                assert(idx < self.count()) by (nonlinear_arith)
                    requires
                        idx * size < self.count() * size,
                        size > 0,
                ;
                assert(idx * size + size <= self.count() * size) by (nonlinear_arith)
                    requires
                        idx < self.count(),
                        size > 0,
                ;
                self.lemma_bytes_fit();
            }
            let all = self.data.as_slice();
            Some(&all[start..start + size])
        } else {
            proof {
                if size > 0 {
                    lemma_count_mul(self.data@, size);
                    assert(!(idx < self.count())) by (nonlinear_arith)
                        requires
                            idx * size >= self.count() * size,
                            size > 0,
                    ;
                }
            }
            None
        }
    }

    /// The number of elements.
    /// The size of one element in bytes.
    pub fn get_size(&self) -> (r: usize)
        ensures
            r == self.size(),
    {
        self.data_size
    }

    /// The number of elements: 0 when the element size is 0.
    pub fn len(&self) -> (r: usize)
        ensures
            r == self.count(),
    {
        if self.data_size == 0 {
            0
        } else {
            self.data.len() / self.data_size
        }
    }

    /// Removes every element.
    pub fn clear(&mut self)
        ensures
            final(self).size() == old(self).size(),
            final(self).bytes() == Seq::<u8>::empty(),
            final(self).wf(),
            final(self).elems() == Seq::<Seq<u8>>::empty(),
    {
        self.data.clear();
        assert(self.elems() =~= Seq::<Seq<u8>>::empty());
    }

    proof fn lemma_resized(&self, start: Seq<u8>, additional: usize, inplace: Seq<u8>)
        requires
            self.data_size > 0,
            (start.len() as int) % (self.data_size as int) == 0,
            inplace.len() >= self.data_size,
            self.data@ == start + Seq::new(
                (additional * self.data_size) as nat,
                |i: int| inplace[i % (self.data_size as int)],
            ),
        ensures
            self.wf(),
            self.elems() == split_elems(start, self.data_size)
                + Seq::new(additional as nat, |i: int| inplace.subrange(0, self.data_size as int)),
    {
        let size = self.data_size as int;
        let c = start.len() / (size as nat);
        let tail = Seq::new(
            (additional * self.data_size) as nat,
            |i: int| inplace[i % (self.data_size as int)],
        );
        assert(start.len() == c * size) by (nonlinear_arith)
            requires
                (start.len() as int) % size == 0,
                size > 0,
                c == start.len() / (size as nat),
        ;
        let total = start.len() + additional * size;
        assert(total == (c + additional) * size) by (nonlinear_arith)
            requires
                start.len() == c * size,
                total == start.len() + additional * size,
        ;
        assert((total as int) % size == 0 && total / size == c + additional) by (nonlinear_arith)
            requires
                total == (c + additional) * size,
                size > 0,
                c + additional >= 0,
        ;
        let expect = split_elems(start, self.data_size) + Seq::new(
            additional as nat,
            |i: int| inplace.subrange(0, size),
        );
        assert(self.elems().len() == expect.len());
        assert forall|i: int| 0 <= i < self.elems().len() implies self.elems()[i] == expect[i] by {
            assert(i * size + size == (i + 1) * size) by (nonlinear_arith);
            if i < c {
                assert((i + 1) * size <= c * size) by (nonlinear_arith)
                    requires
                        i < c,
                        size > 0,
                ;
                assert(self.elem(i) =~= start.subrange(i * size, i * size + size));
            } else {
                let j = i - c;
                assert((i + 1) * size <= total) by (nonlinear_arith)
                    requires
                        i < c + additional,
                        total == (c + additional) * size,
                        size > 0,
                ;
                assert(j * size + size == (j + 1) * size) by (nonlinear_arith);
                assert(i * size == c * size + j * size) by (nonlinear_arith)
                    requires
                        j == i - c,
                ;
                assert((j + 1) * size <= additional * size) by (nonlinear_arith)
                    requires
                        j < additional,
                        size > 0,
                ;
                assert forall|t: int| 0 <= t < size implies #[trigger] self.elem(i)[t] == inplace[t] by {
                    assert(self.elem(i)[t] == self.data@[i * size + t]);
                    assert(j * size + t < additional * size) by (nonlinear_arith)
                        requires
                            (j + 1) * size <= additional * size,
                            t < size,
                            j * size + size == (j + 1) * size,
                    ;
                    assert(self.data@[i * size + t] == tail[j * size + t]);
                    assert((j * size + t) % size == t) by (nonlinear_arith)
                        requires
                            0 <= t < size,
                            j >= 0,
                    ;
                }
                assert(self.elem(i) =~= inplace.subrange(0, size));
            }
        }
        assert(self.elems() =~= expect);
    }

}

/// `bytes` cut into consecutive elements of `size` bytes.
pub open spec fn split_elems(bytes: Seq<u8>, size: usize) -> Seq<Seq<u8>> {
    Seq::new(bytes.len() / (size as nat), |i: int| bytes.subrange(i * size, i * size + size))
}

/// A whole number of elements: the byte count is the element count times the size.
pub proof fn lemma_count_mul(bytes: Seq<u8>, size: usize)
    requires
        size > 0,
        (bytes.len() as int) % (size as int) == 0,
    ensures
        bytes.len() == (bytes.len() / (size as nat)) * size,
{
    let c = bytes.len() / (size as nat);
    assert(bytes.len() == c * size) by (nonlinear_arith)
        requires
            (bytes.len() as int) % (size as int) == 0,
            size > 0,
            c == bytes.len() / (size as nat),
    ;
}

/// `bytes` of length `count * size` cuts into `count` elements.
pub proof fn lemma_count_split(bytes: Seq<u8>, size: usize, count: nat)
    requires
        size > 0,
        bytes.len() == count * size,
    ensures
        (bytes.len() as int) % (size as int) == 0,
        bytes.len() / (size as nat) == count,
{
    assert((bytes.len() as int) % (size as int) == 0 && bytes.len() / (size as nat) == count)
        by (nonlinear_arith)
        requires
            bytes.len() == count * size,
            size > 0,
    ;
}

/// Byte `t` of element `j` lies inside the first `count` elements.
pub proof fn lemma_index_in_elem(j: int, t: int, size: int, count: int)
    requires
        0 <= j < count,
        0 <= t < size,
    ensures
        0 <= j * size + t < count * size,
        j * size + size <= count * size,
{
    assert(0 <= j * size + t < count * size && j * size + size <= count * size)
        by (nonlinear_arith)
        requires
            0 <= j < count,
            0 <= t < size,
    ;
}

/// Byte `t` of element `j` is not a byte of a different element `i`.
pub proof fn lemma_other_elem_disjoint(j: int, i: int, t: int, size: int)
    requires
        j != i,
        0 <= j,
        0 <= i,
        0 <= t < size,
    ensures
        !(i * size <= j * size + t < i * size + size),
{
    if j < i {
        assert(j * size + t < i * size) by (nonlinear_arith)
            requires
                j < i,
                0 <= t < size,
        ;
    } else {
        assert(j * size + t >= i * size + size) by (nonlinear_arith)
            requires
                j > i,
                0 <= t,
                size > 0,
        ;
    }
}

/// Byte `t` of element `j` of `bytes`, read through the elements.
pub proof fn lemma_elem_byte(bytes: Seq<u8>, size: usize, j: int, t: int)
    requires
        size > 0,
        0 <= j < bytes.len() / (size as nat),
        0 <= t < size,
    ensures
        0 <= j * size + t < bytes.len(),
        split_elems(bytes, size)[j][t] == bytes[j * size + t],
        split_elems(bytes, size)[j].len() == size,
{
    let c = bytes.len() / (size as nat);
    assert(c * size <= bytes.len()) by (nonlinear_arith)
        requires
            c == bytes.len() / (size as nat),
            size > 0,
    ;
    lemma_index_in_elem(j, t, size as int, c as int);
}

/// Bytes laid out element after element cut back into those elements.
pub proof fn lemma_split(bytes: Seq<u8>, size: usize, elems: Seq<Seq<u8>>)
    requires
        size > 0,
        bytes.len() == elems.len() * size,
        forall|j: int| 0 <= j < elems.len() ==> (#[trigger] elems[j]).len() == size,
        forall|j: int, t: int|
            0 <= j < elems.len() && 0 <= t < size ==> #[trigger] bytes[j * size + t] == elems[j][t],
    ensures
        split_elems(bytes, size) == elems,
{
    lemma_count_split(bytes, size, elems.len());
    let s = split_elems(bytes, size);
    assert forall|j: int| 0 <= j < elems.len() implies s[j] == elems[j] by {
        lemma_index_in_elem(j, 0, size as int, elems.len() as int);
        assert forall|t: int| 0 <= t < size implies #[trigger] s[j][t] == elems[j][t] by {
            assert(s[j][t] == bytes[j * size + t]);
        }
        assert(s[j] =~= elems[j]);
    }
    assert(s =~= elems);
}

} // verus!
