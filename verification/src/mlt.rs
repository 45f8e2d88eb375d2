use crate::segment::Chunk;
use crate::time::{format_time, push_dec, spec_dec, spec_format_time};
use vstd::prelude::*;
use vstd::string::StringExecFns;

verus! {

/// One source-chain node: a reusable reference to the media resource,
/// identified by its position, declared over the whole duration (the chunk's
/// own span is expressed only by the playlist entry that windows it).
#[derive(Clone, Copy, Debug, PartialEq, Eq, Structural)]
pub struct ChainNode {
    pub index: usize,
    pub out_ms: u64,
}

/// One foreground playlist entry: references the chain of the same position
/// and windows it to its chunk's own span.
#[derive(Clone, Copy, Debug, PartialEq, Eq, Structural)]
pub struct EntryNode {
    pub producer_index: usize,
    pub in_ms: u64,
    pub out_ms: u64,
}

/// The timeline document: the total duration, the media resource every chain
/// names, one chain per chunk and one foreground entry per chunk. The profile
/// and the background track are fixed and belong to the renderer.
pub struct MltDocument {
    pub duration_ms: u64,
    pub resource: String,
    pub chains: Vec<ChainNode>,
    pub entries: Vec<EntryNode>,
}

/// The chain nodes of an N-chunk document: positional identifiers, each
/// declared over the full duration.
pub open spec fn spec_chain_nodes(n: int, duration_ms: u64) -> Seq<ChainNode>
    recommends
        0 <= n,
{
    Seq::new(n as nat, |i: int| ChainNode { index: i as usize, out_ms: duration_ms })
}

/// The entry nodes of a chunk sequence: positional chain references, each
/// windowed to its chunk's own span.
pub open spec fn spec_entry_nodes(chunks: Seq<Chunk>) -> Seq<EntryNode> {
    Seq::new(
        chunks.len(),
        |i: int|
            EntryNode { producer_index: i as usize, in_ms: chunks[i].start, out_ms: chunks[i].end },
    )
}

/// Builds the timeline document for a chunk sequence: one chain per chunk
/// over the full duration, one entry per chunk windowed to the chunk's span,
/// all referencing the given media resource.
pub fn build_document(chunks: &Vec<Chunk>, duration_ms: u64, resource: &str) -> (doc: MltDocument)
    ensures
        doc.duration_ms == duration_ms,
        doc.resource@ == resource@,
        doc.chains@ == spec_chain_nodes(chunks@.len() as int, duration_ms),
        doc.entries@ == spec_entry_nodes(chunks@),
{
    let n = chunks.len();
    let mut chains: Vec<ChainNode> = Vec::new();
    let mut i: usize = 0;
    proof {
        assert(chains@ =~= spec_chain_nodes(0, duration_ms));
    }
    while i < n
        invariant
            i <= n,
            n == chunks@.len(),
            chains@ == spec_chain_nodes(i as int, duration_ms),
        decreases n - i,
    {
        chains.push(ChainNode { index: i, out_ms: duration_ms });
        proof {
            assert(chains@ =~= spec_chain_nodes(i as int + 1, duration_ms));
        }
        i += 1;
    }
    let mut entries: Vec<EntryNode> = Vec::new();
    let mut j: usize = 0;
    proof {
        assert(entries@ =~= spec_entry_nodes(chunks@).take(0));
    }
    while j < n
        invariant
            j <= n,
            n == chunks@.len(),
            entries@ == spec_entry_nodes(chunks@).take(j as int),
        decreases n - j,
    {
        let c = chunks[j];
        entries.push(EntryNode { producer_index: j, in_ms: c.start, out_ms: c.end });
        proof {
            assert(entries@ =~= spec_entry_nodes(chunks@).take(j as int + 1));
        }
        j += 1;
    }
    proof {
        assert(spec_entry_nodes(chunks@).take(n as int) =~= spec_entry_nodes(chunks@));
    }
    MltDocument { duration_ms, resource: String::from_str(resource), chains, entries }
}

/// Document structural law: for N chunks the built document holds exactly N
/// chains and exactly N foreground entries; the entry and the chain of each
/// position carry the same identifier index, each entry is windowed to its
/// own chunk's span, and every chain is declared over the whole duration.
pub proof fn lemma_document_structure(chunks: Seq<Chunk>, duration_ms: u64)
    ensures
        ({
            let ch = spec_chain_nodes(chunks.len() as int, duration_ms);
            let en = spec_entry_nodes(chunks);
            &&& ch.len() == chunks.len()
            &&& en.len() == chunks.len()
            &&& forall|i: int|
                0 <= i < chunks.len() ==> (#[trigger] en[i]).producer_index == ch[i].index
            &&& forall|i: int|
                0 <= i < chunks.len() ==> (#[trigger] en[i]).in_ms == chunks[i].start
                    && en[i].out_ms == chunks[i].end
            &&& forall|i: int| 0 <= i < chunks.len() ==> (#[trigger] ch[i]).out_ms == duration_ms
        }),
{
}

/// The rendered form of one chain element.
pub open spec fn spec_chain_elem(c: ChainNode, resource: Seq<char>) -> Seq<char> {
    "  <chain id=\"chain"@ + spec_dec(c.index as nat) + "\" out=\""@ + spec_format_time(
        c.out_ms as int,
    ) + "\">\n  <property name=\"resource\">"@ + resource + "</property>\n</chain>\n"@
}

/// The rendered chain elements, in order.
pub open spec fn spec_chains(chains: Seq<ChainNode>, resource: Seq<char>) -> Seq<char>
    decreases chains.len(),
{
    if chains.len() == 0 {
        Seq::empty()
    } else {
        spec_chains(chains.drop_last(), resource) + spec_chain_elem(chains.last(), resource)
    }
}

/// The rendered form of one foreground playlist entry.
pub open spec fn spec_entry_elem(e: EntryNode) -> Seq<char> {
    "    <entry producer=\"chain"@ + spec_dec(e.producer_index as nat) + "\" in=\""@
        + spec_format_time(e.in_ms as int) + "\" out=\""@ + spec_format_time(e.out_ms as int)
        + "\"/>\n"@
}

/// The rendered foreground playlist entries, in order.
pub open spec fn spec_entries(entries: Seq<EntryNode>) -> Seq<char>
    decreases entries.len(),
{
    if entries.len() == 0 {
        Seq::empty()
    } else {
        spec_entries(entries.drop_last()) + spec_entry_elem(entries.last())
    }
}

/// Everything before the chain elements: the declaration, the root element,
/// the fixed profile, the empty main bin, and the background source and track
/// bounded by the total duration.
pub open spec fn spec_header(total: Seq<char>) -> Seq<char> {
    "<?xml version=\"1.0\" standalone=\"no\"?>\n<mlt LC_NUMERIC=\"C\" version=\"7.27.0\" producer=\"main_bin\">\n<profile width=\"2560\" height=\"1440\" progressive=\"1\" sample_aspect_num=\"1\" sample_aspect_den=\"1\" display_aspect_num=\"16\" display_aspect_den=\"9\" frame_rate_num=\"60000000\" frame_rate_den=\"1000000\" colorspace=\"709\"/>\n<playlist id=\"main_bin\">\n</playlist>\n<producer id=\"black\" in=\"00:00:00.000\" out=\""@
        + total
        + "\">\n</producer>\n<playlist id=\"background\">\n  <entry producer=\"black\" in=\"00:00:00.000\" out=\""@
        + total + "\"/>\n</playlist>\n"@
}

/// Everything after the foreground playlist: the combining element that binds
/// the background and the foreground playlist as its two tracks, bounded by
/// the total duration.
pub open spec fn spec_footer(total: Seq<char>) -> Seq<char> {
    "  <tractor id=\"tractor0\" in=\"00:00:00.000\" out=\""@ + total
        + "\">\n  <property name=\"shotcut\">1</property>\n  <property name=\"shotcut:projectAudioChannels\">2</property>\n  <property name=\"shotcut:projectFolder\">0</property>\n  <property name=\"shotcut:skipConvert\">0</property>\n  <track producer=\"background\"/>\n  <track producer=\"playlist0\"/>\n</tractor>\n</mlt>\n"@
}

/// The full serialized document: header, the chain elements, the foreground
/// playlist holding the entries, and the combining footer.
pub open spec fn spec_render(
    chains: Seq<ChainNode>,
    entries: Seq<EntryNode>,
    duration_ms: u64,
    resource: Seq<char>,
) -> Seq<char> {
    let total = spec_format_time(duration_ms as int);
    spec_header(total) + spec_chains(chains, resource) + "  <playlist id=\"playlist0\">\n"@
        + spec_entries(entries) + "  </playlist>\n"@ + spec_footer(total)
}

/// The serialization of a chunk sequence: the document built from it,
/// rendered.
pub open spec fn spec_generate_mlt(chunks: Seq<Chunk>, duration_ms: u64, resource: Seq<
    char,
>) -> Seq<char> {
    spec_render(
        spec_chain_nodes(chunks.len() as int, duration_ms),
        spec_entry_nodes(chunks),
        duration_ms,
        resource,
    )
}

fn push_chain_elem(s: &mut String, c: ChainNode, resource: &String)
    ensures
        final(s)@ == old(s)@ + spec_chain_elem(c, resource@),
{
    s.append("  <chain id=\"chain");
    push_dec(s, c.index as u64);
    s.append("\" out=\"");
    let t = format_time(c.out_ms);
    s.append(t.as_str());
    s.append("\">\n  <property name=\"resource\">");
    s.append(resource.as_str());
    s.append("</property>\n</chain>\n");
    proof {
        assert(s@ =~= old(s)@ + spec_chain_elem(c, resource@));
    }
}

fn push_entry_elem(s: &mut String, e: EntryNode)
    ensures
        final(s)@ == old(s)@ + spec_entry_elem(e),
{
    s.append("    <entry producer=\"chain");
    push_dec(s, e.producer_index as u64);
    s.append("\" in=\"");
    let tin = format_time(e.in_ms);
    s.append(tin.as_str());
    s.append("\" out=\"");
    let tout = format_time(e.out_ms);
    s.append(tout.as_str());
    s.append("\"/>\n");
    proof {
        assert(s@ =~= old(s)@ + spec_entry_elem(e));
    }
}

/// Serializes a timeline document as UTF-8 markup text.
#[verifier::rlimit(60)]
pub fn render_document(doc: &MltDocument) -> (r: String)
    ensures
        r@ == spec_render(doc.chains@, doc.entries@, doc.duration_ms, doc.resource@),
{
    let total = format_time(doc.duration_ms);
    let ghost total_s = spec_format_time(doc.duration_ms as int);
    let mut s = String::new();
    s.append(
        "<?xml version=\"1.0\" standalone=\"no\"?>\n<mlt LC_NUMERIC=\"C\" version=\"7.27.0\" producer=\"main_bin\">\n<profile width=\"2560\" height=\"1440\" progressive=\"1\" sample_aspect_num=\"1\" sample_aspect_den=\"1\" display_aspect_num=\"16\" display_aspect_den=\"9\" frame_rate_num=\"60000000\" frame_rate_den=\"1000000\" colorspace=\"709\"/>\n<playlist id=\"main_bin\">\n</playlist>\n<producer id=\"black\" in=\"00:00:00.000\" out=\"",
    );
    s.append(total.as_str());
    s.append(
        "\">\n</producer>\n<playlist id=\"background\">\n  <entry producer=\"black\" in=\"00:00:00.000\" out=\"",
    );
    s.append(total.as_str());
    s.append("\"/>\n</playlist>\n");
    let ghost hdr = spec_header(total_s);
    proof {
        assert(s@ =~= hdr);
    }
    let nch = doc.chains.len();
    let mut i: usize = 0;
    proof {
        assert(s@ =~= hdr + spec_chains(doc.chains@.take(0), doc.resource@));
    }
    while i < nch
        invariant
            i <= nch,
            nch == doc.chains@.len(),
            total_s == spec_format_time(doc.duration_ms as int),
            s@ == spec_header(total_s) + spec_chains(doc.chains@.take(i as int), doc.resource@),
        decreases nch - i,
    {
        let c = doc.chains[i];
        push_chain_elem(&mut s, c, &doc.resource);
        proof {
            assert(doc.chains@.take(i as int + 1).drop_last() =~= doc.chains@.take(i as int));
            assert(doc.chains@.take(i as int + 1).last() == c);
            assert(s@ =~= spec_header(total_s) + spec_chains(
                doc.chains@.take(i as int + 1),
                doc.resource@,
            ));
        }
        i += 1;
    }
    proof {
        assert(doc.chains@.take(nch as int) =~= doc.chains@);
    }
    s.append("  <playlist id=\"playlist0\">\n");
    let ghost mid = spec_header(total_s) + spec_chains(doc.chains@, doc.resource@)
        + "  <playlist id=\"playlist0\">\n"@;
    proof {
        assert(s@ =~= mid + spec_entries(doc.entries@.take(0)));
    }
    let nen = doc.entries.len();
    let mut j: usize = 0;
    while j < nen
        invariant
            j <= nen,
            nen == doc.entries@.len(),
            mid == spec_header(total_s) + spec_chains(doc.chains@, doc.resource@)
                + "  <playlist id=\"playlist0\">\n"@,
            s@ == mid + spec_entries(doc.entries@.take(j as int)),
        decreases nen - j,
    {
        let e = doc.entries[j];
        push_entry_elem(&mut s, e);
        proof {
            assert(doc.entries@.take(j as int + 1).drop_last() =~= doc.entries@.take(j as int));
            assert(doc.entries@.take(j as int + 1).last() == e);
            assert(s@ =~= mid + spec_entries(doc.entries@.take(j as int + 1)));
        }
        j += 1;
    }
    proof {
        assert(doc.entries@.take(nen as int) =~= doc.entries@);
    }
    s.append("  </playlist>\n");
    s.append("  <tractor id=\"tractor0\" in=\"00:00:00.000\" out=\"");
    s.append(total.as_str());
    s.append(
        "\">\n  <property name=\"shotcut\">1</property>\n  <property name=\"shotcut:projectAudioChannels\">2</property>\n  <property name=\"shotcut:projectFolder\">0</property>\n  <property name=\"shotcut:skipConvert\">0</property>\n  <track producer=\"background\"/>\n  <track producer=\"playlist0\"/>\n</tractor>\n</mlt>\n",
    );
    proof {
        assert(s@ =~= spec_render(doc.chains@, doc.entries@, doc.duration_ms, doc.resource@));
    }
    s
}

/// Builds and serializes the timeline document for a chunk sequence, the
/// total duration and the media resource it windows.
pub fn generate_mlt(timestamps: &Vec<Chunk>, duration: u64, input_file: &str) -> (r: String)
    ensures
        r@ == spec_generate_mlt(timestamps@, duration, input_file@),
{
    let doc = build_document(timestamps, duration, input_file);
    render_document(&doc)
}

/// The configuration of a timeline document: the chunk sequence, the total
/// duration, the media resource the chains name, and the destination path the
/// caller will write the serialized document to. The setters may run in any
/// order; only `build` consumes the configuration.
pub struct MltBuilder {
    pub timestamps: Vec<Chunk>,
    pub duration: u64,
    pub input_file: String,
    pub output_file: String,
}

impl MltBuilder {
    /// An empty configuration: no chunks, zero duration, empty paths.
    pub fn new() -> (b: MltBuilder)
        ensures
            b.timestamps@ == Seq::<Chunk>::empty(),
            b.duration == 0,
            b.input_file@ == Seq::<char>::empty(),
            b.output_file@ == Seq::<char>::empty(),
    {
        MltBuilder {
            timestamps: Vec::new(),
            duration: 0,
            input_file: String::new(),
            output_file: String::new(),
        }
    }

    /// Sets the chunk sequence; the other settings keep their values.
    pub fn timestamps(self, timestamps: Vec<Chunk>) -> (b: MltBuilder)
        ensures
            b.timestamps == timestamps,
            b.duration == self.duration,
            b.input_file == self.input_file,
            b.output_file == self.output_file,
    {
        MltBuilder { timestamps, ..self }
    }

    /// Sets the total duration, in milliseconds; the other settings keep
    /// their values.
    pub fn duration(self, duration: u64) -> (b: MltBuilder)
        ensures
            b.duration == duration,
            b.timestamps == self.timestamps,
            b.input_file == self.input_file,
            b.output_file == self.output_file,
    {
        MltBuilder { duration, ..self }
    }

    /// Sets the media resource path the chains name; the other settings keep
    /// their values.
    pub fn input_file(self, input_file: &str) -> (b: MltBuilder)
        ensures
            b.input_file@ == input_file@,
            b.timestamps == self.timestamps,
            b.duration == self.duration,
            b.output_file == self.output_file,
    {
        MltBuilder { input_file: String::from_str(input_file), ..self }
    }

    /// Sets the destination path the caller will write the document to; the
    /// other settings keep their values.
    pub fn output_file(self, output_file: &str) -> (b: MltBuilder)
        ensures
            b.output_file@ == output_file@,
            b.timestamps == self.timestamps,
            b.duration == self.duration,
            b.input_file == self.input_file,
    {
        MltBuilder { output_file: String::from_str(output_file), ..self }
    }

    /// Serializes the configured document; writing it to the destination path
    /// is the caller's part.
    pub fn build(self) -> (r: String)
        ensures
            r@ == spec_generate_mlt(self.timestamps@, self.duration, self.input_file@),
    {
        generate_mlt(&self.timestamps, self.duration, self.input_file.as_str())
    }
}

/// The length of a path's directory prefix: everything up to and including
/// its last separator (slash or backslash), or zero when it has none.
pub open spec fn dir_prefix_len(p: Seq<char>) -> int
    decreases p.len(),
{
    if p.len() == 0 {
        0
    } else if p.last() == '/' || p.last() == '\\' {
        p.len() as int
    } else {
        dir_prefix_len(p.drop_last())
    }
}

fn find_dir_prefix_len(p: &str) -> (k: usize)
    ensures
        k as int == dir_prefix_len(p@),
        k <= p@.len(),
{
    let n = p.unicode_len();
    let mut k = n;
    proof {
        assert(p@.take(n as int) =~= p@);
    }
    loop
        invariant
            k <= n,
            n == p@.len(),
            dir_prefix_len(p@) == dir_prefix_len(p@.take(k as int)),
        decreases k,
    {
        if k == 0 {
            proof {
                assert(p@.take(0).len() == 0);
            }
            return 0;
        }
        let c = p.get_char(k - 1);
        proof {
            assert(p@.take(k as int).last() == p@[k - 1]);
            assert(p@.take(k as int).drop_last() =~= p@.take(k as int - 1));
        }
        if c == '/' || c == '\\' {
            return k;
        }
        k -= 1;
    }
}

/// The path the output document is written to: `output.mlt` in the input
/// file's own directory (the input path's directory prefix, then the fixed
/// file name).
pub fn generate_output_mlt_path(input_path: &str) -> (r: String)
    ensures
        r@ == input_path@.subrange(0, dir_prefix_len(input_path@)) + "output.mlt"@,
{
    let k = find_dir_prefix_len(input_path);
    let prefix = input_path.substring_char(0, k);
    let mut r = String::from_str(prefix);
    r.append("output.mlt");
    r
}

} // verus!
