//! The plain table of ternary rows, sharing the single-valued codec.
//!
//! This is the general-purpose table handed to the external minimizer when no
//! bridge is involved; it carries the same row model and the same text codec
//! as [`PlaBinary`], consolidated behind that one implementation.

use vstd::prelude::*;
use crate::errors::CodecError;
use crate::pla_binary::PlaBinary;
use crate::pla_binary::encode_text;
use crate::pla_binary::parse_table_text;
use crate::ternary::Ternary;

verus! {

/// A table of ternary rows with its width header.
#[derive(Debug)]
pub struct PLA {
    table: PlaBinary,
}

impl View for PLA {
    type V = Seq<(Seq<Ternary>, Seq<Ternary>)>;

    closed spec fn view(&self) -> Seq<(Seq<Ternary>, Seq<Ternary>)> {
        self.table@
    }
}

proof fn lemma_wf_equiv(p: &PLA)
    ensures
        p.wf() <==> p.table.wf(),
{
    if p.wf() {
        assert forall|i: int| 0 <= i < p.table@.len() implies (#[trigger] p.table@[i]).0.len()
            == p.table.in_count() && p.table@[i].1.len() == p.table.out_count() by {
            assert(p@[i] == p.table@[i]);
        }
    }
    if p.table.wf() {
        assert forall|i: int| 0 <= i < p@.len() implies (#[trigger] p@[i]).0.len() == p.in_count()
            && p@[i].1.len() == p.out_count() by {
            assert(p@[i] == p.table@[i]);
        }
    }
}

impl PLA {
    /// The declared input cell count of every row.
    pub closed spec fn in_count(&self) -> int {
        self.table.in_count()
    }

    /// The declared output cell count of every row.
    pub closed spec fn out_count(&self) -> int {
        self.table.out_count()
    }

    /// Every row matches the header.
    pub open spec fn wf(&self) -> bool {
        forall|i: int|
            0 <= i < self@.len() ==> (#[trigger] self@[i]).0.len() == self.in_count()
                && self@[i].1.len() == self.out_count()
    }

    /// A fresh empty table.
    pub fn new() -> (r: PLA)
        ensures
            r@ == Seq::<(Seq<Ternary>, Seq<Ternary>)>::empty(),
            r.in_count() == 0,
            r.out_count() == 0,
            r.wf(),
    {
        PLA { table: PlaBinary::new() }
    }

    /// Append one row. The first row fixes the header; every later row must
    /// carry the same widths.
    pub fn add_line(&mut self, inputs: Vec<Ternary>, outputs: Vec<Ternary>)
        requires
            old(self).wf(),
            old(self)@.len() > 0 ==> inputs@.len() == old(self).in_count() && outputs@.len() == old(
                self,
            ).out_count(),
        ensures
            final(self).wf(),
            final(self)@ == old(self)@.push((inputs@, outputs@)),
            final(self).in_count() == if old(self)@.len() == 0 {
                inputs@.len() as int
            } else {
                old(self).in_count()
            },
            final(self).out_count() == if old(self)@.len() == 0 {
                outputs@.len() as int
            } else {
                old(self).out_count()
            },
    {
        proof {
            lemma_wf_equiv(self);
        }
        self.table.add_line(inputs, outputs);
        proof {
            lemma_wf_equiv(self);
        }
    }

    /// The number of rows.
    pub fn len(&self) -> (n: usize)
        ensures
            n == self@.len(),
    {
        self.table.len()
    }

    /// The input cells of row `i`.
    pub fn row_inputs(&self, i: usize) -> (r: Vec<Ternary>)
        requires
            i < self@.len(),
        ensures
            r@ == self@[i as int].0,
    {
        self.table.row_inputs(i)
    }

    /// The output cells of row `i`.
    pub fn row_outputs(&self, i: usize) -> (r: Vec<Ternary>)
        requires
            i < self@.len(),
        ensures
            r@ == self@[i as int].1,
    {
        self.table.row_outputs(i)
    }

    /// Serialize the table, as [`encode_text`] lays it out.
    pub fn encode(&self) -> (r: String)
        requires
            self.wf(),
        ensures
            r@ == encode_text(self.in_count(), self.out_count(), self@),
    {
        proof {
            lemma_wf_equiv(self);
        }
        self.table.encode()
    }

    /// Deserialize a table text, exactly as [`parse_table_text`] reads it.
    pub fn decode(s: &str) -> (r: Result<PLA, CodecError>)
        ensures
            match r {
                Ok(t) => t.wf() && parse_table_text(s@) == Ok::<_, CodecError>(
                    (t.in_count(), t.out_count(), t@),
                ),
                Err(e) => parse_table_text(s@) == Err::<(int, int, Seq<(Seq<Ternary>, Seq<Ternary>)>),
                    _,
                >(e),
            },
    {
        match PlaBinary::decode(s) {
            Ok(t) => {
                let p = PLA { table: t };
                proof {
                    lemma_wf_equiv(&p);
                }
                Ok(p)
            },
            Err(e) => Err(e),
        }
    }
}

impl Default for PLA {
    /// The empty table, as construction starts.
    fn default() -> (r: PLA)
        ensures
            r@ == Seq::<(Seq<Ternary>, Seq<Ternary>)>::empty(),
            r.in_count() == 0,
            r.out_count() == 0,
            r.wf(),
    {
        PLA::new()
    }
}

} // verus!
