//! The virtual memory table: names of tensors and the pages that back them.
//!
//! ```text
//! UNMAPPED --> ALLOCATED --first access--> RESIDENT (VRAM)
//!                                            |        |
//!                                          demote   evict
//!                                            v        v
//!                                     WARM (DRAM) <-> COLD (SSD)
//! ```

use crate::error::VugvaError;
use crate::name_map::{self, NameMap};
use crate::text;
use vstd::prelude::*;
use vstd::string::*;

verus! {

/// Memory tier.
#[derive(Debug, Clone, Copy, PartialEq, Eq, Structural, Hash)]
pub enum Tier {
    /// Tier 0: memory of a GPU.
    Vram,
    /// Tier 1: memory of the host.
    Dram,
    /// Tier 2: NVMe storage.
    Ssd,
}

/// State of a page.
#[derive(Debug, Clone, Copy, PartialEq, Eq, Structural)]
pub enum PageState {
    /// Not allocated.
    Unmapped,
    /// Allocated and never accessed.
    Allocated,
    /// Resident in the memory of a GPU.
    Resident,
    /// Demoted to host memory.
    Warm,
    /// Spilled to storage.
    Cold,
}

/// A page may go from `from` to `to`.
pub open spec fn valid_edge(from: PageState, to: PageState) -> bool {
    match from {
        PageState::Unmapped => to == PageState::Allocated,
        PageState::Allocated => to == PageState::Resident,
        PageState::Resident => to == PageState::Warm || to == PageState::Cold,
        PageState::Warm => to == PageState::Resident || to == PageState::Cold,
        PageState::Cold => to == PageState::Warm || to == PageState::Resident,
    }
}

/// A page that has been accessed can go from any of the three tiers to any
/// other and back, and never again to where it was before its first access.
pub proof fn law_migration_is_reversible(from: PageState, to: PageState)
    requires
        from == PageState::Resident || from == PageState::Warm || from == PageState::Cold,
    ensures
        valid_edge(from, to) ==> valid_edge(to, from),
        valid_edge(from, to) <==> from != to && (to == PageState::Resident || to
            == PageState::Warm || to == PageState::Cold),
{
}

/// The only way out of the two first states is forward, one step at a time.
pub proof fn law_first_access_comes_first(from: PageState, to: PageState)
    requires
        from == PageState::Unmapped || from == PageState::Allocated,
        valid_edge(from, to),
    ensures
        from == PageState::Unmapped ==> to == PageState::Allocated,
        from == PageState::Allocated ==> to == PageState::Resident,
        !valid_edge(to, from),
{
}

/// A page is allocated before anything else and accessed before it is moved
/// about: each of the two first states has one way out and no way in but from
/// the state before.
pub proof fn law_states_begin_in_order(from: PageState, to: PageState)
    ensures
        valid_edge(PageState::Unmapped, to) <==> to == PageState::Allocated,
        valid_edge(PageState::Allocated, to) <==> to == PageState::Resident,
        !valid_edge(from, PageState::Unmapped),
        valid_edge(from, PageState::Allocated) <==> from == PageState::Unmapped,
        !valid_edge(from, from),
{
}

/// A contiguous piece of a page in the memory of a GPU.
#[derive(Debug, Clone, Copy)]
pub struct Chunk {
    /// Ordinal of the GPU.
    pub gpu_ordinal: i32,
    /// Device pointer.
    pub device_ptr: u64,
    /// Length in bytes.
    pub size_bytes: usize,
    /// Number of elements.
    pub num_elements: usize,
}

/// A contiguous piece of a page in host memory.
#[derive(Debug, Clone, Copy)]
pub struct DramChunk {
    /// NUMA node of the memory.
    pub numa_node: usize,
    /// Host address.
    pub host_ptr: usize,
    /// Length in bytes.
    pub size_bytes: usize,
    /// The memory is registered with CUDA for direct DMA.
    pub cuda_registered: bool,
}

/// A page of the virtual memory table.
#[derive(Debug)]
pub struct Page {
    /// Name of the tensor.
    pub name: String,
    /// Tier that the page is in.
    pub tier: Tier,
    /// State of the page.
    pub state: PageState,
    /// Shape of the tensor, in elements.
    pub shape: Vec<usize>,
    /// Size of an element in bytes.
    pub element_size: usize,
    /// Size of the page in bytes.
    pub size_bytes: usize,
    /// Pieces in the memory of GPUs.
    pub vram_chunks: Vec<Chunk>,
    /// Pieces in host memory.
    pub dram_chunks: Vec<DramChunk>,
    /// Offset in the spill file, for a page that has a place there.
    pub ssd_offset: Option<u64>,
    /// Number of accesses since the last demotion.
    pub access_count: u64,
    /// Time of the last access in nanoseconds.
    pub last_access_ns: u64,
    /// The page must not be evicted.
    pub pinned: bool,
}

/// What a [`Page`] stands for.
#[verifier::ext_equal]
pub struct PageView {
    /// Name of the tensor.
    pub name: Seq<char>,
    /// Tier that the page is in.
    pub tier: Tier,
    /// State of the page.
    pub state: PageState,
    /// Shape of the tensor, in elements.
    pub shape: Seq<usize>,
    /// Size of an element in bytes.
    pub element_size: usize,
    /// Size of the page in bytes.
    pub size_bytes: usize,
    /// Pieces in the memory of GPUs.
    pub vram_chunks: Seq<Chunk>,
    /// Pieces in host memory.
    pub dram_chunks: Seq<DramChunk>,
    /// Offset in the spill file.
    pub ssd_offset: Option<u64>,
    /// Number of accesses since the last demotion.
    pub access_count: u64,
    /// Time of the last access in nanoseconds.
    pub last_access_ns: u64,
    /// The page must not be evicted.
    pub pinned: bool,
}

impl View for Page {
    type V = PageView;

    open spec fn view(&self) -> PageView {
        PageView {
            name: self.name@,
            tier: self.tier,
            state: self.state,
            shape: self.shape@,
            element_size: self.element_size,
            size_bytes: self.size_bytes,
            vram_chunks: self.vram_chunks@,
            dram_chunks: self.dram_chunks@,
            ssd_offset: self.ssd_offset,
            access_count: self.access_count,
            last_access_ns: self.last_access_ns,
            pinned: self.pinned,
        }
    }
}

/// Number of elements of a tensor of shape `shape`.
pub open spec fn elements(shape: Seq<usize>) -> int
    decreases shape.len(),
{
    if shape.len() == 0 {
        1
    } else {
        elements(shape.drop_last()) * shape.last()
    }
}

/// Number of bytes of a tensor of shape `shape`.
pub open spec fn tensor_bytes(shape: Seq<usize>, element_size: usize) -> int {
    elements(shape) * element_size
}

/// The size of the tensor can be worked out, dimension by dimension, within a
/// machine word.
pub open spec fn sizable(shape: Seq<usize>, element_size: usize) -> bool {
    &&& forall|k: int| 0 <= k <= shape.len() ==> #[trigger] elements(shape.take(k)) <= usize::MAX
    &&& tensor_bytes(shape, element_size) <= usize::MAX
}

proof fn lemma_elements_nonnegative(shape: Seq<usize>)
    ensures
        elements(shape) >= 0,
    decreases shape.len(),
{
    if shape.len() > 0 {
        lemma_elements_nonnegative(shape.drop_last());
        let a = elements(shape.drop_last());
        let b = shape.last();
        assert(a * b >= 0) by (nonlinear_arith)
            requires
                a >= 0,
                b >= 0,
        ;
    }
}

/// A tensor without dimensions is one element, and every dimension multiplies
/// the elements and the bytes there are by its length.
pub proof fn law_dimensions_multiply(shape: Seq<usize>, length: usize, element_size: usize)
    ensures
        elements(Seq::empty()) == 1,
        tensor_bytes(Seq::empty(), element_size) == element_size,
        elements(shape.push(length)) == elements(shape) * length,
        tensor_bytes(shape.push(length), element_size) == tensor_bytes(shape, element_size)
            * length,
{
    assert(shape.push(length).drop_last() =~= shape);
    let n = elements(shape);
    assert(n * length * element_size == n * element_size * length) by (nonlinear_arith);
    assert(1 * element_size == element_size);
}

/// A size is never negative.
pub(crate) proof fn lemma_tensor_bytes_nonnegative(shape: Seq<usize>, element_size: usize)
    ensures
        tensor_bytes(shape, element_size) >= 0,
{
    lemma_elements_nonnegative(shape);
    let a = elements(shape);
    assert(a * element_size >= 0) by (nonlinear_arith)
        requires
            a >= 0,
            element_size >= 0,
    ;
}

/// The size in bytes of a tensor.
pub fn size_of_tensor(shape: &[usize], element_size: usize) -> (r: usize)
    requires
        sizable(shape@, element_size),
    ensures
        r == tensor_bytes(shape@, element_size),
{
    let mut product: usize = 1;
    let mut i: usize = 0;
    while i < shape.len()
        invariant
            sizable(shape@, element_size),
            0 <= i <= shape@.len(),
            product == elements(shape@.take(i as int)),
        decreases shape@.len() - i,
    {
        proof {
            assert(shape@.take(i + 1).drop_last() =~= shape@.take(i as int));
            assert(elements(shape@.take(i + 1)) <= usize::MAX);
            lemma_elements_nonnegative(shape@.take(i + 1));
        }
        product = product * shape[i];
        i = i + 1;
    }
    proof {
        assert(shape@.take(i as int) =~= shape@);
        lemma_tensor_bytes_nonnegative(shape@, element_size);
    }
    product * element_size
}

impl PageView {
    /// A page that backs nothing yet.
    pub open spec fn unmapped(name: Seq<char>, shape: Seq<usize>, element_size: usize) -> PageView {
        PageView {
            name,
            tier: Tier::Vram,
            state: PageState::Unmapped,
            shape,
            element_size,
            size_bytes: tensor_bytes(shape, element_size) as usize,
            vram_chunks: Seq::empty(),
            dram_chunks: Seq::empty(),
            ssd_offset: None,
            access_count: 0,
            last_access_ns: 0,
            pinned: false,
        }
    }

    /// A page as it is registered: allocated and without any piece.
    pub open spec fn allocated(
        name: Seq<char>,
        shape: Seq<usize>,
        element_size: usize,
    ) -> PageView {
        PageView {
            state: PageState::Allocated,
            ..PageView::unmapped(name, shape, element_size)
        }
    }

    /// The page after an access at `now_ns`.
    pub open spec fn touched(self, now_ns: u64) -> PageView {
        PageView {
            access_count: (self.access_count + 1) as u64,
            last_access_ns: now_ns,
            ..self
        }
    }

    /// The page after its last access has come to lie further back than
    /// `idle_threshold_ns`, unless it is pinned.
    pub open spec fn idle(self, now_ns: u64, idle_threshold_ns: u64) -> bool {
        !self.pinned && now_ns - self.last_access_ns > idle_threshold_ns
    }

    /// The page has been accessed `access_threshold` times or more.
    pub open spec fn hot(self, access_threshold: u64) -> bool {
        self.access_count >= access_threshold
    }
}

/// An access leaves its time and one more in the count, and nothing else of the
/// page changes. From then on the page is not idle until the threshold has
/// passed, whatever the threshold.
pub proof fn law_an_access_is_recorded(
    page: PageView,
    now_ns: u64,
    later_ns: u64,
    idle_threshold_ns: u64,
)
    requires
        page.access_count < u64::MAX,
    ensures
        page.touched(now_ns).last_access_ns == now_ns,
        page.touched(now_ns).access_count == page.access_count + 1,
        page.touched(now_ns) == (PageView {
            last_access_ns: page.touched(now_ns).last_access_ns,
            access_count: page.touched(now_ns).access_count,
            ..page
        }),
        later_ns <= now_ns + idle_threshold_ns ==> !page.touched(now_ns).idle(
            later_ns,
            idle_threshold_ns,
        ),
{
}

/// A page is not idle up to the threshold after its last access, and is idle
/// from then on unless it is pinned.
pub proof fn law_idle_begins_behind_the_threshold(
    page: PageView,
    now_ns: u64,
    idle_threshold_ns: u64,
)
    ensures
        now_ns <= page.last_access_ns + idle_threshold_ns ==> !page.idle(
            now_ns,
            idle_threshold_ns,
        ),
        !page.pinned && now_ns > page.last_access_ns + idle_threshold_ns ==> page.idle(
            now_ns,
            idle_threshold_ns,
        ),
        page.pinned ==> !page.idle(now_ns, idle_threshold_ns),
{
}

/// A page is hot from the access on that makes its count reach the threshold:
/// not before, and on every access after.
pub proof fn law_hot_begins_at_the_threshold(
    page: PageView,
    now_ns: u64,
    access_threshold: u64,
)
    requires
        page.access_count < u64::MAX,
    ensures
        access_threshold > page.access_count ==> !page.hot(access_threshold),
        access_threshold <= page.access_count ==> page.hot(access_threshold),
        page.touched(now_ns).hot(access_threshold) <==> page.hot(access_threshold)
            || access_threshold == page.access_count + 1,
{
}

/// A new page has the size of its tensor, was never accessed, is not pinned and
/// has no memory in any tier.
pub proof fn law_new_page_has_nothing(
    name: Seq<char>,
    shape: Seq<usize>,
    element_size: usize,
    page: PageView,
)
    requires
        sizable(shape, element_size),
        page == PageView::unmapped(name, shape, element_size) || page == PageView::allocated(
            name,
            shape,
            element_size,
        ),
    ensures
        page.name == name,
        page.shape == shape,
        page.element_size == element_size,
        page.size_bytes == elements(shape) * element_size,
        page.vram_chunks.len() == 0,
        page.dram_chunks.len() == 0,
        page.ssd_offset is None,
        page.access_count == 0,
        page.last_access_ns == 0,
        !page.pinned,
        PageView::unmapped(name, shape, element_size).state == PageState::Unmapped,
        valid_edge(
            PageView::unmapped(name, shape, element_size).state,
            PageView::allocated(name, shape, element_size).state,
        ),
{
    lemma_tensor_bytes_nonnegative(shape, element_size);
}

/// The most that is set aside for the pieces of a page before there are any.
const RESERVED_CHUNKS: usize = 1024;

/// How many pieces of an expected number are set aside for: all of them, up to
/// that limit.
fn reserved(hint: usize) -> (r: usize)
    ensures
        r == if hint < RESERVED_CHUNKS {
            hint
        } else {
            RESERVED_CHUNKS
        },
{
    if hint < RESERVED_CHUNKS {
        hint
    } else {
        RESERVED_CHUNKS
    }
}

impl Page {
    /// An unmapped page. The two counts say how many pieces to expect.
    pub fn new(
        name: String,
        shape: Vec<usize>,
        element_size: usize,
        num_gpus: usize,
        num_numa_nodes: usize,
    ) -> (r: Self)
        requires
            sizable(shape@, element_size),
        ensures
            r@ == PageView::unmapped(name@, shape@, element_size),
            r.size_bytes == tensor_bytes(shape@, element_size),
    {
        let size_bytes: usize = size_of_tensor(shape.as_slice(), element_size);
        Page {
            name,
            tier: Tier::Vram,
            state: PageState::Unmapped,
            shape,
            element_size,
            size_bytes,
            vram_chunks: Vec::with_capacity(reserved(num_gpus)),
            dram_chunks: Vec::with_capacity(reserved(num_numa_nodes)),
            ssd_offset: None,
            access_count: 0,
            last_access_ns: 0,
            pinned: false,
        }
    }

    /// Go to another state, where the state machine has that edge.
    pub fn transition(&mut self, new_state: PageState) -> (r: Result<(), VugvaError>)
        ensures
            r is Ok <==> valid_edge(old(self).state, new_state),
            r is Ok ==> final(self)@ == (PageView { state: new_state, ..old(self)@ }),
            r is Err ==> final(self)@ == old(self)@,
            r matches Err(e) ==> {
                &&& e matches VugvaError::InvalidTransition { from, to, page }
                &&& from == old(self).state
                &&& to == new_state
                &&& page@ == old(self).name@
            },
    {
        let valid = match self.state {
            PageState::Unmapped => new_state == PageState::Allocated,
            PageState::Allocated => new_state == PageState::Resident,
            PageState::Resident => new_state == PageState::Warm || new_state == PageState::Cold,
            PageState::Warm => new_state == PageState::Resident || new_state == PageState::Cold,
            PageState::Cold => new_state == PageState::Warm || new_state == PageState::Resident,
        };
        if valid {
            self.state = new_state;
            Ok(())
        } else {
            Err(
                VugvaError::InvalidTransition {
                    from: self.state,
                    to: new_state,
                    page: self.name.clone(),
                },
            )
        }
    }

    /// Record an access.
    pub fn touch(&mut self, now_ns: u64)
        requires
            old(self).access_count < u64::MAX,
        ensures
            final(self)@ == old(self)@.touched(now_ns),
    {
        self.access_count = self.access_count + 1;
        self.last_access_ns = now_ns;
    }

    /// The page has not been accessed for longer than `idle_threshold_ns`. A
    /// pinned page is never idle.
    pub fn is_idle(&self, now_ns: u64, idle_threshold_ns: u64) -> (r: bool)
        ensures
            r == self@.idle(now_ns, idle_threshold_ns),
    {
        !self.pinned && now_ns.saturating_sub(self.last_access_ns) > idle_threshold_ns
    }

    /// The page has been accessed often enough to be promoted ahead of need.
    pub fn is_hot(&self, access_threshold: u64) -> (r: bool)
        ensures
            r == self@.hot(access_threshold),
    {
        self.access_count >= access_threshold
    }
}

/// What a [`VirtualMemoryTable`] stands for.
#[verifier::ext_equal]
pub struct Table {
    /// The registered pages by name.
    pub pages: Map<Seq<char>, PageView>,
    /// Number of names made up so far.
    pub next_id: u64,
}

/// The table of all pages, by name.
pub struct VirtualMemoryTable {
    pages: NameMap<Page>,
    num_gpus: usize,
    num_numa_nodes: usize,
    next_id: u64,
}

/// The name made up for the `id`-th page that was registered without one.
pub open spec fn generated_name(id: u64) -> Seq<char> {
    "vugva_alloc_"@ + text::decimal(id as int)
}

/// Names that are made up are all different.
pub proof fn law_generated_names_are_unique(a: u64, b: u64)
    requires
        generated_name(a) == generated_name(b),
    ensures
        a == b,
{
    let p = "vugva_alloc_"@;
    let n = p.len() as int;
    assert(generated_name(a).skip(n) =~= text::decimal(a as int));
    assert(generated_name(b).skip(n) =~= text::decimal(b as int));
    text::law_digits_are_distinct(a as nat, b as nat);
}

spec fn views(pages: Map<Seq<char>, Page>) -> Map<Seq<char>, PageView> {
    pages.map_values(|p: Page| p@)
}

impl View for VirtualMemoryTable {
    type V = Table;

    closed spec fn view(&self) -> Table {
        Table { pages: views(self.pages@), next_id: self.next_id }
    }
}

impl VirtualMemoryTable {
    /// No name occurs twice.
    pub closed spec fn wf(&self) -> bool {
        self.pages.wf()
    }

    /// Number of GPUs of the cluster that the table is for.
    pub closed spec fn gpus(&self) -> usize {
        self.num_gpus
    }

    /// Number of NUMA nodes of the cluster that the table is for.
    pub closed spec fn numa_nodes(&self) -> usize {
        self.num_numa_nodes
    }

    /// The table is for a cluster of the same size as `other` is.
    pub open spec fn same_cluster(&self, other: &Self) -> bool {
        self.gpus() == other.gpus() && self.numa_nodes() == other.numa_nodes()
    }

    /// The pages in the order in which they are walked.
    pub closed spec fn listing(&self) -> Seq<(String, Page)> {
        self.pages.listing()
    }

    /// An empty table for a cluster of the given size.
    pub fn new(num_gpus: usize, num_numa_nodes: usize) -> (r: Self)
        ensures
            r.wf(),
            r@ == (Table { pages: Map::empty(), next_id: 0 }),
            r.gpus() == num_gpus,
            r.numa_nodes() == num_numa_nodes,
    {
        let r = VirtualMemoryTable { pages: NameMap::new(), num_gpus, num_numa_nodes, next_id: 0 };
        assert(r@ =~= Table { pages: Map::empty(), next_id: 0 });
        r
    }

    /// Register a page under `name`, or under a name made up for it where
    /// `name` is empty, in place of any page that had the name.
    pub fn allocate(&mut self, name: &str, shape: &[usize], element_size: usize) -> (r: Result<
        String,
        VugvaError,
    >)
        requires
            old(self).wf(),
            sizable(shape@, element_size),
            name@.len() == 0 ==> old(self)@.next_id < u64::MAX,
        ensures
            final(self).wf(),
            final(self).same_cluster(old(self)),
            r is Ok,
            registered(old(self)@, name@, shape@, element_size, r->Ok_0@, final(self)@),
    {
        let alloc_name: String = if name.is_empty() {
            self.next_id = self.next_id + 1;
            let mut s: String = "vugva_alloc_".to_owned();
            text::append_unsigned(&mut s, self.next_id);
            s
        } else {
            name.to_owned()
        };
        let mut page = Page::new(
            alloc_name.clone(),
            vstd::slice::slice_to_vec(shape),
            element_size,
            self.num_gpus,
            self.num_numa_nodes,
        );
        page.state = PageState::Allocated;
        page.tier = Tier::Vram;
        self.pages.insert(alloc_name.clone(), page);
        proof {
            assert(page@ =~= PageView::allocated(alloc_name@, shape@, element_size));
            assert(self@.pages =~= old(self)@.pages.insert(alloc_name@, page@));
        }
        Ok(alloc_name)
    }

    /// The page of that name.
    pub fn lookup(&self, name: &str) -> (r: Option<&Page>)
        requires
            self.wf(),
        ensures
            match r {
                Some(p) => self@.pages.contains_key(name@) && p@ == self@.pages[name@],
                None => !self@.pages.contains_key(name@),
            },
    {
        self.pages.get(name)
    }

    /// The page of that name, to be changed in place.
    pub fn lookup_mut(&mut self, name: &str) -> (r: Option<&mut Page>)
        requires
            old(self).wf(),
        ensures
            final(self).wf(),
            final(self).same_cluster(old(self)),
            match r {
                Some(p) => {
                    &&& old(self)@.pages.contains_key(name@)
                    &&& p@ == old(self)@.pages[name@]
                    &&& final(self)@ == (Table {
                        pages: old(self)@.pages.insert(name@, final(p)@),
                        ..old(self)@
                    })
                },
                None => !old(self)@.pages.contains_key(name@) && final(self)@ == old(self)@,
            },
    {
        let ghost before = self.pages@;
        proof {
            assert forall|p: Page| #[trigger] views(before.insert(name@, p)) == views(
                before,
            ).insert(name@, p@) by {
                assert(views(before.insert(name@, p)) =~= views(before).insert(name@, p@));
            }
        }
        self.pages.get_mut(name)
    }

    /// Take the page of that name out of the table.
    pub fn remove(&mut self, name: &str) -> (r: Option<Page>)
        requires
            old(self).wf(),
        ensures
            final(self).wf(),
            final(self).same_cluster(old(self)),
            final(self)@ == (Table { pages: old(self)@.pages.remove(name@), ..old(self)@ }),
            match r {
                Some(p) => old(self)@.pages.contains_key(name@) && p@ == old(self)@.pages[name@],
                None => !old(self)@.pages.contains_key(name@),
            },
    {
        let r = self.pages.remove(name);
        assert(self@.pages =~= old(self)@.pages.remove(name@));
        r
    }

    /// Number of pages.
    pub fn len(&self) -> (r: usize)
        requires
            self.wf(),
        ensures
            self@.pages.dom().finite(),
            r == self@.pages.dom().len(),
    {
        assert(self@.pages.dom() =~= self.pages@.dom());
        self.pages.len()
    }

    /// There are no pages.
    pub fn is_empty(&self) -> (r: bool)
        requires
            self.wf(),
        ensures
            r <==> self@.pages.dom() =~= Set::empty(),
    {
        let n: usize = self.len();
        proof {
            if n == 0 {
                self@.pages.dom().lemma_len0_is_empty();
            }
        }
        n == 0
    }

    /// All pages with their names.
    pub(crate) fn entries(&self) -> (r: &Vec<(String, Page)>)
        requires
            self.wf(),
        ensures
            r@ == self.listing(),
            lists(r@, self@.pages),
    {
        proof {
            self.lemma_listing();
        }
        self.pages.entries()
    }

    /// Walk all pages with their names.
    pub fn iter(&self) -> (r: std::slice::Iter<'_, (String, Page)>)
        requires
            self.wf(),
        ensures
            vstd::std_specs::slice::into_iter_elts(r) == self.listing(),
            lists(self.listing(), self@.pages),
    {
        self.entries().iter()
    }

    /// Walk all pages with their names, the pages to be changed in place: the
    /// page at position `i` of the walk.
    pub fn iter_mut(&mut self, i: usize) -> (r: Option<(&String, &mut Page)>)
        requires
            old(self).wf(),
        ensures
            final(self).wf(),
            final(self).same_cluster(old(self)),
            match r {
                Some((n, p)) => {
                    &&& i < old(self).listing().len()
                    &&& *n == old(self).listing()[i as int].0
                    &&& *p == old(self).listing()[i as int].1
                    &&& final(self).listing() == old(self).listing().update(
                        i as int,
                        (*n, *final(p)),
                    )
                    &&& final(self)@ == (Table {
                        pages: old(self)@.pages.insert(n@, final(p)@),
                        ..old(self)@
                    })
                },
                None => i >= old(self).listing().len() && *final(self) == *old(self),
            },
    {
        let ghost before = self.pages@;
        proof {
            assert forall|n: Seq<char>, p: Page| #[trigger] views(before.insert(n, p)) == views(
                before,
            ).insert(n, p@) by {
                assert(views(before.insert(n, p)) =~= views(before).insert(n, p@));
            }
        }
        self.pages.at_mut(i)
    }

    proof fn lemma_listing(&self)
        requires
            self.wf(),
        ensures
            lists(self.listing(), self@.pages),
    {
        let l = self.listing();
        assert forall|i: int| 0 <= i < l.len() implies self@.pages.contains_key((#[trigger] l[i]).0@)
            && self@.pages[l[i].0@] == l[i].1@ by {
            name_map::lemma_entry(l, i);
        }
    }
}

/// `listing` has every page of `pages` once, under its name.
pub open spec fn lists(listing: Seq<(String, Page)>, pages: Map<Seq<char>, PageView>) -> bool {
    &&& name_map::distinct_names(listing)
    &&& forall|i: int|
        0 <= i < listing.len() ==> pages.contains_key((#[trigger] listing[i]).0@)
            && pages[listing[i].0@] == listing[i].1@
    &&& forall|n: Seq<char>| #[trigger]
        pages.contains_key(n) ==> exists|i: int| name_map::entry_at(listing, n, i)
}

/// What registering a page does to `pre`.
pub open spec fn registered(
    pre: Table,
    name: Seq<char>,
    shape: Seq<usize>,
    element_size: usize,
    given: Seq<char>,
    post: Table,
) -> bool {
    let next_id = if name.len() == 0 {
        (pre.next_id + 1) as u64
    } else {
        pre.next_id
    };
    &&& given == if name.len() == 0 {
        generated_name(next_id)
    } else {
        name
    }
    &&& post == (Table {
        pages: pre.pages.insert(given, PageView::allocated(given, shape, element_size)),
        next_id,
    })
}

/// A page is registered under the name that is asked for, in place of any page
/// of that name, or under one that is made up with the next number where no name
/// is given. It is allocated and has nothing yet. No other page changes, and no
/// number is used twice.
pub proof fn law_pages_are_registered_by_name(
    pre: Table,
    name: Seq<char>,
    shape: Seq<usize>,
    element_size: usize,
    given: Seq<char>,
    post: Table,
    other: Seq<char>,
)
    requires
        registered(pre, name, shape, element_size, given, post),
        sizable(shape, element_size),
        pre.next_id < u64::MAX,
        other != given,
    ensures
        name.len() > 0 ==> given == name && post.next_id == pre.next_id,
        name.len() == 0 ==> given == generated_name(post.next_id) && post.next_id == pre.next_id
            + 1,
        post.pages.contains_key(given),
        post.pages[given].name == given,
        post.pages[given].state == PageState::Allocated,
        post.pages[given].tier == Tier::Vram,
        post.pages[given].size_bytes == elements(shape) * element_size,
        post.pages[given].shape == shape,
        post.pages[given].vram_chunks.len() == 0,
        post.pages[given].dram_chunks.len() == 0,
        post.pages.contains_key(other) == pre.pages.contains_key(other),
        post.pages[other] == pre.pages[other],
{
    lemma_tensor_bytes_nonnegative(shape, element_size);
}

/// What a page stands for is all that it holds.
pub proof fn law_a_page_is_what_it_holds(page: Page)
    ensures
        page@.name == page.name@,
        page@.tier == page.tier,
        page@.state == page.state,
        page@.shape == page.shape@,
        page@.element_size == page.element_size,
        page@.size_bytes == page.size_bytes,
        page@.vram_chunks == page.vram_chunks@,
        page@.dram_chunks == page.dram_chunks@,
        page@.ssd_offset == page.ssd_offset,
        page@.access_count == page.access_count,
        page@.last_access_ns == page.last_access_ns,
        page@.pinned == page.pinned,
{
}

/// A listing of the pages has each page of the table once, under its name, and no
/// other.
pub proof fn law_every_page_is_listed_once(
    entries: Seq<(String, Page)>,
    pages: Map<Seq<char>, PageView>,
    name: Seq<char>,
    i: int,
    j: int,
)
    requires
        lists(entries, pages),
        0 <= i < entries.len(),
        0 <= j < entries.len(),
    ensures
        pages.contains_key(name) <==> exists|k: int|
            0 <= k < entries.len() && (#[trigger] entries[k]).0@ == name,
        pages.contains_key(entries[i].0@),
        pages[entries[i].0@] == entries[i].1@,
        entries[i].0@ == entries[j].0@ ==> i == j,
{
    if i < j {
        assert(entries[i].0@ != entries[j].0@);
    } else if j < i {
        assert(entries[j].0@ != entries[i].0@);
    }
    if pages.contains_key(name) {
        let k = choose|k: int| name_map::entry_at(entries, name, k);
        assert(entries[k].0@ == name);
    }
    if exists|k: int| 0 <= k < entries.len() && (#[trigger] entries[k]).0@ == name {
        let k = choose|k: int| 0 <= k < entries.len() && (#[trigger] entries[k]).0@ == name;
        assert(pages.contains_key(entries[k].0@));
    }
}

/// A table is for a cluster of the same size as itself, and as every table that is
/// for one of the size of a table it is like.
pub proof fn law_clusters_are_compared_by_size(
    a: VirtualMemoryTable,
    b: VirtualMemoryTable,
    c: VirtualMemoryTable,
)
    ensures
        a.same_cluster(&a),
        a.same_cluster(&b) ==> a.gpus() == b.gpus() && a.numa_nodes() == b.numa_nodes(),
        a.same_cluster(&b) && b.same_cluster(&c) ==> a.same_cluster(&c),
{
}

} // verus!
