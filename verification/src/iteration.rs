//! Output directories of a benchmark run: one directory per iteration,
//! named by its number, under a base directory.
use vstd::prelude::*;
use crate::realtime::{dec_digits, push_decimal};
use crate::text::{chars_of, parse_unsigned, parse_unsigned_exec, push_char};
use crate::order::{is_stable_order, permute, stable_order, usize_seq_as_int};

verus! {

broadcast use vstd::string::group_string_axioms;

/// `Path::join` on Unix: an absolute component replaces the base; otherwise
/// a separator is added unless the base is empty or already ends with one.
pub open spec fn path_join(base: Seq<char>, comp: Seq<char>) -> Seq<char> {
    if comp.len() > 0 && comp[0] == '/' {
        comp
    } else if base.len() > 0 && base.last() != '/' {
        base + seq!['/'] + comp
    } else {
        base + comp
    }
}

fn append_chars(s: &mut String, cs: &[char])
    ensures
        final(s)@ == old(s)@ + cs@,
{
    let mut i: usize = 0;
    while i < cs.len()
        invariant
            0 <= i <= cs@.len(),
            s@ == old(s)@ + cs@.take(i as int),
        decreases cs@.len() - i,
    {
        push_char(s, cs[i]);
        assert(cs@.take(i + 1) == cs@.take(i as int).push(cs@[i as int]));
        i = i + 1;
    }
    assert(cs@.take(cs@.len() as int) =~= cs@);
}

/// `path_join` of two texts.
pub fn join_path(base: &str, comp: &str) -> (r: String)
    ensures
        r@ == path_join(base@, comp@),
{
    let b = chars_of(base);
    let c = chars_of(comp);
    let mut out = String::new();
    if c.len() > 0 && c[0] == '/' {
        append_chars(&mut out, c.as_slice());
        return out;
    }
    append_chars(&mut out, b.as_slice());
    if b.len() > 0 && b[b.len() - 1] != '/' {
        push_char(&mut out, '/');
    }
    append_chars(&mut out, c.as_slice());
    out
}

pub struct IterationOutputManager {
    base_dir: String,
}

impl IterationOutputManager {
    pub closed spec fn base(&self) -> Seq<char> {
        self.base_dir@
    }

    /// A manager whose base directory is `output_prefix`.
    pub fn new(output_prefix: &str) -> (m: Self)
        ensures
            m.base() == output_prefix@,
    {
        IterationOutputManager { base_dir: output_prefix.to_owned() }
    }

    /// The directory of iteration `iteration`: the base joined with its number.
    pub fn get_iteration_dir(&self, iteration: usize) -> (r: String)
        ensures
            r@ == path_join(self.base(), dec_digits(iteration as nat)),
    {
        let mut name = String::new();
        push_decimal(&mut name, iteration as u64);
        join_path(self.base_dir.as_str(), name.as_str())
    }

    /// The path of `filename` in the directory of iteration `iteration`.
    pub fn get_file_path(&self, iteration: usize, filename: &str) -> (r: String)
        ensures
            r@ == path_join(path_join(self.base(), dec_digits(iteration as nat)), filename@),
    {
        let dir = self.get_iteration_dir(iteration);
        join_path(dir.as_str(), filename)
    }

    /// The base directory.
    pub fn base_dir(&self) -> (r: &str)
        ensures
            r@ == self.base(),
    {
        self.base_dir.as_str()
    }
}

/// The numbers that directory names read as (`str::parse::<usize>`), in
/// the order of the names; names that are not numbers are left out.
pub open spec fn numbered(names: Seq<Seq<char>>) -> Seq<u64>
    decreases names.len(),
{
    if names.len() == 0 {
        Seq::empty()
    } else {
        let r = numbered(names.drop_last());
        match parse_unsigned(names.last(), usize::MAX as nat) {
            Some(v) => r.push(v as u64),
            None => r,
        }
    }
}

pub open spec fn names_view(v: Seq<String>) -> Seq<Seq<char>> {
    Seq::new(v.len(), |i: int| v[i]@)
}

/// The iteration numbers among directory names, ascending.
pub fn iteration_numbers(names: &[String]) -> (r: Vec<usize>)
    ensures
        exists|p: Seq<int>|
            is_stable_order(numbered(names_view(names@)), p) && usize_seq_as_int(r@) == permute(
                numbered(names_view(names@)),
                p,
            ).map_values(|x: u64| x as int),
{
    let ghost nv = names_view(names@);
    let mut vals: Vec<u64> = Vec::new();
    let mut i: usize = 0;
    while i < names.len()
        invariant
            nv == names_view(names@),
            0 <= i <= names@.len(),
            vals@ == numbered(nv.take(i as int)),
            forall|k: int| 0 <= k < vals@.len() ==> #[trigger] vals@[k] <= usize::MAX,
        decreases names@.len() - i,
    {
        proof {
            assert(nv.take(i + 1).drop_last() =~= nv.take(i as int));
            assert(nv.take(i + 1).last() == names@[i as int]@);
        }
        let cs = chars_of(names[i].as_str());
        match parse_unsigned_exec(cs.as_slice(), 0, cs.len(), usize::MAX as u64) {
            Some(v) => {
                assert(cs@.subrange(0, cs@.len() as int) =~= cs@);
                vals.push(v);
            },
            None => {
                assert(cs@.subrange(0, cs@.len() as int) =~= cs@);
            },
        }
        i = i + 1;
    }
    assert(nv.take(names@.len() as int) =~= nv);
    let p = stable_order(&vals);
    let ghost pi = usize_seq_as_int(p@);
    let mut r: Vec<usize> = Vec::new();
    let mut k: usize = 0;
    while k < p.len()
        invariant
            is_stable_order(vals@, pi),
            pi == usize_seq_as_int(p@),
            forall|j: int| 0 <= j < vals@.len() ==> #[trigger] vals@[j] <= usize::MAX,
            0 <= k <= p@.len(),
            usize_seq_as_int(r@) == permute(vals@, pi).take(k as int).map_values(|x: u64| x as int),
        decreases p@.len() - k,
    {
        assert(0 <= pi[k as int] < vals@.len());
        let v = vals[p[k]];
        assert(v <= usize::MAX);
        assert(permute(vals@, pi)[k as int] == v);
        let ghost before = usize_seq_as_int(r@);
        r.push(v as usize);
        assert(usize_seq_as_int(r@) =~= before.push(v as int));
        assert(usize_seq_as_int(r@) =~= permute(vals@, pi).take(k + 1).map_values(|x: u64| x as int));
        k = k + 1;
    }
    assert(permute(vals@, pi).take(p@.len() as int) =~= permute(vals@, pi));
    r
}

} // verus!
