use cut_bot::mlt::{
    build_document, generate_mlt, generate_output_mlt_path, render_document, MltBuilder,
};
use cut_bot::segment::{find_audio_chunks, Chunk};

fn chunk(start: u64, end: u64) -> Chunk {
    Chunk { start, end }
}

#[test]
fn one_chunk_document_is_rendered_exactly() {
    let chunks = vec![chunk(2_000, 5_000)];
    let rendered = generate_mlt(&chunks, 10_000, "clip.mkv");
    let expected = r#"<?xml version="1.0" standalone="no"?>
<mlt LC_NUMERIC="C" version="7.27.0" producer="main_bin">
<profile width="2560" height="1440" progressive="1" sample_aspect_num="1" sample_aspect_den="1" display_aspect_num="16" display_aspect_den="9" frame_rate_num="60000000" frame_rate_den="1000000" colorspace="709"/>
<playlist id="main_bin">
</playlist>
<producer id="black" in="00:00:00.000" out="00:00:10.000">
</producer>
<playlist id="background">
  <entry producer="black" in="00:00:00.000" out="00:00:10.000"/>
</playlist>
  <chain id="chain0" out="00:00:10.000">
  <property name="resource">clip.mkv</property>
</chain>
  <playlist id="playlist0">
    <entry producer="chain0" in="00:00:02.000" out="00:00:05.000"/>
  </playlist>
  <tractor id="tractor0" in="00:00:00.000" out="00:00:10.000">
  <property name="shotcut">1</property>
  <property name="shotcut:projectAudioChannels">2</property>
  <property name="shotcut:projectFolder">0</property>
  <property name="shotcut:skipConvert">0</property>
  <track producer="background"/>
  <track producer="playlist0"/>
</tractor>
</mlt>
"#;
    assert_eq!(rendered, expected);
}

#[test]
fn document_holds_one_chain_and_one_entry_per_chunk() {
    let chunks = vec![chunk(0, 2_000), chunk(2_000, 5_000), chunk(5_000, 9_000)];
    let rendered = generate_mlt(&chunks, 9_000, "video.mkv");
    assert_eq!(rendered.matches("<chain id=\"chain").count(), 3);
    assert_eq!(rendered.matches("<entry producer=\"chain").count(), 3);
    for i in 0..3 {
        assert!(rendered.contains(&format!("<chain id=\"chain{}\" out=\"00:00:09.000\">", i)));
    }
    assert!(rendered.contains("<entry producer=\"chain0\" in=\"00:00:00.000\" out=\"00:00:02.000\"/>"));
    assert!(rendered.contains("<entry producer=\"chain1\" in=\"00:00:02.000\" out=\"00:00:05.000\"/>"));
    assert!(rendered.contains("<entry producer=\"chain2\" in=\"00:00:05.000\" out=\"00:00:09.000\"/>"));
}

#[test]
fn built_document_matches_its_chunks() {
    let chunks = vec![chunk(0, 1_000), chunk(1_000, 4_000)];
    let doc = build_document(&chunks, 4_000, "video.mkv");
    assert_eq!(doc.duration_ms, 4_000);
    assert_eq!(doc.resource, "video.mkv");
    assert_eq!(doc.chains.len(), 2);
    assert_eq!(doc.entries.len(), 2);
    for i in 0..2 {
        assert_eq!(doc.chains[i].index, i);
        assert_eq!(doc.chains[i].out_ms, 4_000);
        assert_eq!(doc.entries[i].producer_index, doc.chains[i].index);
        assert_eq!(doc.entries[i].in_ms, chunks[i].start);
        assert_eq!(doc.entries[i].out_ms, chunks[i].end);
    }
    assert_eq!(render_document(&doc), generate_mlt(&chunks, 4_000, "video.mkv"));
}

#[test]
fn builder_configures_in_any_order_and_builds_the_same_document() {
    let chunks = vec![chunk(0, 3_000), chunk(3_000, 8_000)];
    let a = MltBuilder::new()
        .timestamps(chunks.clone())
        .duration(8_000)
        .input_file("video.mkv")
        .output_file("out.mlt")
        .build();
    let b = MltBuilder::new()
        .output_file("out.mlt")
        .input_file("video.mkv")
        .duration(8_000)
        .timestamps(chunks.clone())
        .build();
    assert_eq!(a, b);
    assert_eq!(a, generate_mlt(&chunks, 8_000, "video.mkv"));
}

#[test]
fn builder_starts_empty() {
    let b = MltBuilder::new();
    assert_eq!(b.timestamps.len(), 0);
    assert_eq!(b.duration, 0);
    assert_eq!(b.input_file, "");
    assert_eq!(b.output_file, "");
}

#[test]
fn output_path_sits_beside_the_input_file() {
    assert_eq!(generate_output_mlt_path("/a/b/video.mkv"), "/a/b/output.mlt");
    assert_eq!(generate_output_mlt_path("video.mkv"), "output.mlt");
    assert_eq!(
        generate_output_mlt_path("C:\\clips\\video.mkv"),
        "C:\\clips\\output.mlt"
    );
}

#[test]
fn pipeline_from_analysis_text_to_document() {
    let loud_text = "silence_end: 2.0\nsilence_end: 8.0\n";
    let silent_text = "silence_start: 5.0\n";
    let duration_text = "  Duration: 00:00:10.00, start: 0.0\n";
    let loud = cut_bot::events::extract_loud_starts(loud_text.as_bytes());
    let silent = cut_bot::events::extract_silence_starts(silent_text.as_bytes());
    let duration = cut_bot::events::extract_duration(duration_text.as_bytes()).unwrap();
    let chunks = find_audio_chunks(&loud, &silent, duration);
    assert_eq!(chunks.len(), 4);
    let rendered = generate_mlt(&chunks, duration, "video.mkv");
    assert_eq!(rendered.matches("<chain id=\"chain").count(), 4);
    assert_eq!(rendered.matches("<entry producer=\"chain").count(), 4);
}
