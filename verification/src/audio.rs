//! Opus-in-Ogg audio muxing: fixed header packets and incremental page
//! serialization with a monotonically increasing granule position, plus the
//! setup decisions of the audio pipeline.

use vstd::prelude::*;

verus! {

/// How many frames the inbound hand-off queue holds before a submitting
/// caller blocks; sized to absorb brief scheduling jitter only.
pub const FRAME_QUEUE_CAPACITY: usize = 50;

/// The fixed stream serial number used for every page of a session.
pub const AUDIO_STREAM_SERIAL: u32 = 12345;

/// The Opus identification header: magic, version 1, two channels, zero
/// pre-skip, a 48 kHz reference rate, zero gain and the single-stream
/// mapping.
pub open spec fn id_header_bytes() -> Seq<u8> {
    seq![
        0x4fu8, 0x70u8, 0x75u8, 0x73u8, 0x48u8, 0x65u8, 0x61u8, 0x64u8,
        1u8, 2u8, 0u8, 0u8, 0x80u8, 0xbbu8, 0u8, 0u8, 0u8, 0u8, 0u8,
    ]
}

/// The Opus comment header: magic, the vendor string `Moonlight` and an
/// empty user-comment list.
pub open spec fn comment_header_bytes() -> Seq<u8> {
    seq![
        0x4fu8, 0x70u8, 0x75u8, 0x73u8, 0x54u8, 0x61u8, 0x67u8, 0x73u8,
        9u8, 0u8, 0u8, 0u8,
        0x4du8, 0x6fu8, 0x6fu8, 0x6eu8, 0x6cu8, 0x69u8, 0x67u8, 0x68u8, 0x74u8,
        0u8, 0u8, 0u8, 0u8,
    ]
}

pub fn build_id_header() -> (r: Vec<u8>)
    ensures
        r@ == id_header_bytes(),
{
    let mut r: Vec<u8> = Vec::new();
    r.push(0x4f);
    r.push(0x70);
    r.push(0x75);
    r.push(0x73);
    r.push(0x48);
    r.push(0x65);
    r.push(0x61);
    r.push(0x64);
    r.push(1);
    r.push(2);
    r.push(0);
    r.push(0);
    r.push(0x80);
    r.push(0xbb);
    r.push(0);
    r.push(0);
    r.push(0);
    r.push(0);
    r.push(0);
    proof {
        assert(r@ =~= id_header_bytes());
    }
    r
}

pub fn build_comment_header() -> (r: Vec<u8>)
    ensures
        r@ == comment_header_bytes(),
{
    let mut r: Vec<u8> = Vec::new();
    r.push(0x4f);
    r.push(0x70);
    r.push(0x75);
    r.push(0x73);
    r.push(0x54);
    r.push(0x61);
    r.push(0x67);
    r.push(0x73);
    r.push(9);
    r.push(0);
    r.push(0);
    r.push(0);
    r.push(0x4d);
    r.push(0x6f);
    r.push(0x6f);
    r.push(0x6e);
    r.push(0x6c);
    r.push(0x69);
    r.push(0x67);
    r.push(0x68);
    r.push(0x74);
    r.push(0);
    r.push(0);
    r.push(0);
    r.push(0);
    proof {
        assert(r@ =~= comment_header_bytes());
    }
    r
}

/// Holds ogg's page writer over an in-memory byte sink.
#[verifier::external_body]
pub struct PageWriter {
    inner: ogg::PacketWriter<'static, Vec<u8>>,
}

/// What the page writer has been given so far: each packet's bytes with the
/// serial and granule position it was written under, in order.
pub uninterp spec fn writer_packets(w: PageWriter) -> Seq<(Seq<u8>, u32, u64)>;

/// How many bytes of the serialized stream have already been handed out.
pub uninterp spec fn writer_taken(w: PageWriter) -> nat;

/// The serialized Ogg stream for these packets, each written with a forced
/// page boundary, as ogg's page writer produces it.
pub uninterp spec fn ogg_stream_bytes(packets: Seq<(Seq<u8>, u32, u64)>) -> Seq<u8>;

/// Relies on ogg::PacketWriter::new over an empty in-memory sink: nothing
/// has been written or handed out yet.
#[verifier::external_body]
fn page_writer_new() -> (w: PageWriter)
    ensures
        writer_packets(w) == Seq::<(Seq<u8>, u32, u64)>::empty(),
        writer_taken(w) == 0,
        ogg_stream_bytes(writer_packets(w)) == Seq::<u8>::empty(),
{
    PageWriter { inner: ogg::PacketWriter::new(Vec::new()) }
}

/// Relies on ogg::PacketWriter::write_packet with PacketWriteEndInfo::EndPage:
/// the packet is appended to the stream and its finished pages go to the sink
/// at once, only extending the bytes already serialized; with a Vec sink the
/// underlying io writes cannot fail.
#[verifier::external_body]
fn page_writer_write(w: &mut PageWriter, data: &Vec<u8>, serial: u32, granule: u64)
    ensures
        writer_packets(*final(w)) == writer_packets(*old(w)).push((data@, serial, granule)),
        writer_taken(*final(w)) == writer_taken(*old(w)),
        ogg_stream_bytes(writer_packets(*old(w))) == ogg_stream_bytes(
            writer_packets(*final(w)),
        ).take(ogg_stream_bytes(writer_packets(*old(w))).len() as int),
{
    let _ = w.inner.write_packet(data.clone(), serial, ogg::PacketWriteEndInfo::EndPage, granule);
}

/// Relies on ogg::PacketWriter::inner_mut: takes every serialized byte that
/// has not been handed out yet, leaving the sink empty.
#[verifier::external_body]
fn page_writer_take(w: &mut PageWriter) -> (r: Vec<u8>)
    ensures
        writer_packets(*final(w)) == writer_packets(*old(w)),
        r@ == ogg_stream_bytes(writer_packets(*old(w))).skip(writer_taken(*old(w)) as int),
        writer_taken(*final(w)) == ogg_stream_bytes(writer_packets(*old(w))).len(),
{
    std::mem::take(w.inner.inner_mut())
}

/// Incrementally serializes one Opus elementary stream into a streaming Ogg
/// container: two fixed header packets at position zero, then one packet per
/// audio frame, each on its own page, with the position counter advanced by
/// the session's samples-per-frame before each frame is written.
pub struct OggMuxer {
    writer: PageWriter,
    serial: u32,
    samples_per_frame: u64,
    granule: u64,
    frames: Ghost<nat>,
}

impl OggMuxer {
    /// The stream serial number every page carries.
    pub closed spec fn serial_no(self) -> u32 {
        self.serial
    }

    /// The samples one frame stands for; the position advances by this much
    /// per frame.
    pub closed spec fn frame_samples(self) -> u64 {
        self.samples_per_frame
    }

    /// The running position counter, in samples.
    pub closed spec fn position(self) -> u64 {
        self.granule
    }

    /// How many audio frames have been written (headers excluded).
    pub closed spec fn frames_written(self) -> nat {
        self.frames@
    }

    /// Every packet handed to the page writer so far, headers included.
    pub closed spec fn packets(self) -> Seq<(Seq<u8>, u32, u64)> {
        writer_packets(self.writer)
    }

    pub closed spec fn wf(self) -> bool {
        &&& self.packets().len() == self.frames@ + 2
        &&& self.granule == self.frames@ * self.samples_per_frame
        &&& self.packets()[0] == (id_header_bytes(), self.serial, 0u64)
        &&& self.packets()[1] == (comment_header_bytes(), self.serial, 0u64)
        &&& forall|i: int|
            2 <= i < self.packets().len() ==> (#[trigger] self.packets()[i]).1 == self.serial
                && self.packets()[i].2 == (i - 1) * self.samples_per_frame
        &&& writer_taken(self.writer) == ogg_stream_bytes(self.packets()).len()
    }

    /// Starts a stream under the given identity: writes the identification
    /// and comment packets, each flushed onto its own page, and returns
    /// their serialized chunks in emission order.
    pub fn new(serial: u32, samples_per_frame: u64) -> (r: (OggMuxer, Vec<u8>, Vec<u8>))
        ensures
            r.0.wf(),
            r.0.serial_no() == serial,
            r.0.frame_samples() == samples_per_frame,
            r.0.frames_written() == 0,
            r.0.position() == 0,
            r.0.packets() == seq![
                (id_header_bytes(), serial, 0u64),
                (comment_header_bytes(), serial, 0u64),
            ],
            r.1@ == ogg_stream_bytes(seq![(id_header_bytes(), serial, 0u64)]),
            r.2@ == ogg_stream_bytes(
                seq![(id_header_bytes(), serial, 0u64), (comment_header_bytes(), serial, 0u64)],
            ).skip(ogg_stream_bytes(seq![(id_header_bytes(), serial, 0u64)]).len() as int),
    {
        let mut writer = page_writer_new();
        let id = build_id_header();
        page_writer_write(&mut writer, &id, serial, 0);
        proof {
            assert(writer_packets(writer) =~= seq![(id_header_bytes(), serial, 0u64)]);
        }
        let first = page_writer_take(&mut writer);
        proof {
            assert(ogg_stream_bytes(writer_packets(writer)).skip(0) =~= ogg_stream_bytes(
                writer_packets(writer),
            ));
        }
        let comment = build_comment_header();
        page_writer_write(&mut writer, &comment, serial, 0);
        proof {
            assert(writer_packets(writer) =~= seq![
                (id_header_bytes(), serial, 0u64),
                (comment_header_bytes(), serial, 0u64),
            ]);
        }
        let second = page_writer_take(&mut writer);
        let m = OggMuxer {
            writer,
            serial,
            samples_per_frame,
            granule: 0,
            frames: Ghost(0),
        };
        (m, first, second)
    }

    /// The running position counter, in samples.
    pub fn current_position(&self) -> (r: u64)
        ensures
            r == self.position(),
    {
        self.granule
    }

    /// True when another frame can be written without the position counter
    /// outgrowing its machine width.
    pub fn can_advance(&self) -> (r: bool)
        ensures
            r == (self.position() + self.frame_samples() <= u64::MAX),
    {
        self.granule <= u64::MAX - self.samples_per_frame
    }

    /// Writes one raw frame: advances the position by the frame's sample
    /// count, serializes the frame as a packet tagged with the new position,
    /// forces a page boundary, and returns the finished bytes. The muxer
    /// retains no output.
    pub fn write_frame(&mut self, frame: &Vec<u8>) -> (chunk: Vec<u8>)
        requires
            old(self).wf(),
            old(self).position() + old(self).frame_samples() <= u64::MAX,
        ensures
            final(self).wf(),
            final(self).serial_no() == old(self).serial_no(),
            final(self).frame_samples() == old(self).frame_samples(),
            final(self).frames_written() == old(self).frames_written() + 1,
            final(self).position() == old(self).position() + old(self).frame_samples(),
            final(self).packets() == old(self).packets().push(
                (frame@, old(self).serial_no(), (old(self).position() + old(
                    self,
                ).frame_samples()) as u64),
            ),
            chunk@ == ogg_stream_bytes(final(self).packets()).skip(
                ogg_stream_bytes(old(self).packets()).len() as int,
            ),
    {
        self.granule = self.granule + self.samples_per_frame;
        page_writer_write(&mut self.writer, frame, self.serial, self.granule);
        let chunk = page_writer_take(&mut self.writer);
        proof {
            self.frames@ = self.frames@ + 1;
            let n = self.packets().len() as int;
            assert(self.granule == self.frames@ * self.samples_per_frame) by (nonlinear_arith)
                requires
                    self.granule == (self.frames@ - 1) * self.samples_per_frame
                        + self.samples_per_frame,
            ;
            assert(self.packets()[n - 1].2 == (n - 2) * self.samples_per_frame)
                by (nonlinear_arith)
                requires
                    self.packets()[n - 1].2 == self.granule,
                    self.granule == self.frames@ * self.samples_per_frame,
                    n == self.frames@ + 2,
            ;
            assert(forall|i: int|
                2 <= i < n - 1 ==> (#[trigger] self.packets()[i]) == old(self).packets()[i]);
        }
        chunk
    }

    /// After `K` frames the position counter is exactly `K` times the
    /// samples-per-frame value, and both header packets sit at position
    /// zero.
    pub proof fn lemma_muxer_position(self)
        requires
            self.wf(),
        ensures
            self.position() == self.frames_written() * self.frame_samples(),
            self.packets()[0] == (id_header_bytes(), self.serial_no(), 0u64),
            self.packets()[1] == (comment_header_bytes(), self.serial_no(), 0u64),
            self.packets().len() == self.frames_written() + 2,
    {
    }
}

/// The sample rates the pipeline accepts without warning.
pub open spec fn supported_sample_rate(rate: u32) -> bool {
    rate == 80000 || rate == 12000 || rate == 16000 || rate == 24000 || rate == 48000
}

pub fn is_supported_sample_rate(rate: u32) -> (r: bool)
    ensures
        r == supported_sample_rate(rate),
{
    rate == 80000 || rate == 12000 || rate == 16000 || rate == 24000 || rate == 48000
}

/// What a setup call decides: the status handed back to the engine and
/// which non-fatal warnings to log.
pub struct SetupOutcome {
    pub status: i32,
    pub warn_sample_rate: bool,
    pub warn_config: bool,
}

/// The setup decision: a sample rate outside the known-good set and a
/// negotiated configuration differing from the requested one are each worth
/// a warning, never an error; setup itself always succeeds.
pub fn evaluate_setup(sample_rate: u32, config_matches: bool) -> (r: SetupOutcome)
    ensures
        r.status == 0,
        r.warn_sample_rate == !supported_sample_rate(sample_rate),
        r.warn_config == !config_matches,
{
    SetupOutcome {
        status: 0,
        warn_sample_rate: !is_supported_sample_rate(sample_rate),
        warn_config: !config_matches,
    }
}

} // verus!
