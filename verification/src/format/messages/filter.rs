//! Filter pipeline messages.

use vstd::prelude::*;

verus! {

/// Identifier of the deflate filter.
pub const FILTER_DEFLATE: u16 = 1;

/// A filter of a pipeline.
#[derive(Debug, PartialEq, Eq)]
pub struct Filter {
    /// Which filter.
    pub id: u16,
    /// Whether the filter may be skipped.
    pub flags: u16,
    /// Parameters of the filter.
    pub cd_values: Vec<u32>,
}

/// The filters that chunks pass through.
#[derive(Debug, PartialEq, Eq)]
pub struct FilterPipeline {
    /// The filters, in the order in which a chunk is written.
    pub filters: Vec<Filter>,
}

/// What a filter says.
#[verifier::ext_equal]
pub struct FilterView {
    pub id: u16,
    pub flags: u16,
    pub cd_values: Seq<u32>,
}

impl View for Filter {
    type V = FilterView;

    open spec fn view(&self) -> FilterView {
        FilterView { id: self.id, flags: self.flags, cd_values: self.cd_values@ }
    }
}

impl View for FilterPipeline {
    type V = Seq<FilterView>;

    open spec fn view(&self) -> Seq<FilterView> {
        self.filters@.map_values(|f: Filter| f@)
    }
}

/// The pipeline that deflates at a level.
pub open spec fn deflate_view(level: u32) -> Seq<FilterView> {
    seq![FilterView { id: FILTER_DEFLATE, flags: 0, cd_values: seq![level] }]
}

impl FilterPipeline {
    /// Deflate at the given level.
    pub fn deflate(level: u32) -> (p: Self)
        ensures
            p@ == deflate_view(level),
    {
        let mut cd_values: Vec<u32> = Vec::new();
        cd_values.push(level);
        let mut filters: Vec<Filter> = Vec::new();
        filters.push(Filter { id: FILTER_DEFLATE, flags: 0, cd_values });
        let p = FilterPipeline { filters };
        assert(p.filters@[0].cd_values@ =~= seq![level]);
        assert(p@ =~= deflate_view(level));
        p
    }
}

fn copy_values(a: &Vec<u32>) -> (v: Vec<u32>)
    ensures
        v@ == a@,
{
    let mut v: Vec<u32> = Vec::new();
    let mut i: usize = 0;
    while i < a.len()
        invariant
            i <= a.len(),
            v@ == a@.take(i as int),
        decreases a.len() - i,
    {
        v.push(a[i]);
        assert(v@ =~= a@.take(i + 1));
        i = i + 1;
    }
    assert(a@.take(a@.len() as int) =~= a@);
    v
}

impl Clone for FilterPipeline {
    fn clone(&self) -> (r: Self)
        ensures
            r@ == self@,
    {
        let mut filters: Vec<Filter> = Vec::new();
        let mut i: usize = 0;
        while i < self.filters.len()
            invariant
                i <= self.filters.len(),
                filters@.len() == i,
                forall|k: int| 0 <= k < i ==> #[trigger] filters@[k]@ == self.filters@[k]@,
            decreases self.filters.len() - i,
        {
            let f = &self.filters[i];
            filters.push(
                Filter { id: f.id, flags: f.flags, cd_values: copy_values(&f.cd_values) },
            );
            i = i + 1;
        }
        let r = FilterPipeline { filters };
        assert(r@ =~= self@);
        r
    }
}

} // verus!
