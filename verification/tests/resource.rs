use elemaudio_resources::resource::{
    channel_resource_name, normalize_audio_resource_name, AudioBuffer, Resource,
    ResourceId, ResourceManager,
};

type Manager = ResourceManager<f32, f64, u32>;
type Res = Resource<f32, f64, u32>;

#[test]
fn trims_extensions_and_length() {
    assert_eq!(
        normalize_audio_resource_name("myFavouriteSound.wav"),
        "myFavouriteSound"
    );
    assert_eq!(
        normalize_audio_resource_name("abcdefghijklmnopq.mp3"),
        "abcdefghijklmnop"
    );
}

#[test]
fn builds_channel_names() {
    assert_eq!(
        channel_resource_name("myFavouriteSound.wav", 0),
        "myFavouriteSound_ch1"
    );
    assert_eq!(channel_resource_name("folder/file.wav", 2), "file_ch3");
}

#[test]
fn splits_channels() {
    let buffer = AudioBuffer::<f32>::new(vec![1.0, 2.0, 3.0, 4.0], 44_100, 2).unwrap();
    let channels = buffer.split_channels();
    assert_eq!(channels.len(), 2);
    assert_eq!(channels[0].samples.as_ref(), &[1.0, 3.0]);
    assert_eq!(channels[1].samples.as_ref(), &[2.0, 4.0]);
}

#[test]
fn normalize_trims_white_space_and_falls_back() {
    assert_eq!(normalize_audio_resource_name("  drums .wav"), "drums");
    assert_eq!(normalize_audio_resource_name("   .wav"), "resource");
    assert_eq!(normalize_audio_resource_name(".hidden"), ".hidden");
    assert_eq!(normalize_audio_resource_name("   "), "resource");
    assert_eq!(normalize_audio_resource_name(""), "resource");
    assert_eq!(normalize_audio_resource_name("a/b/"), "b");
    assert_eq!(normalize_audio_resource_name(".."), "..");
    assert_eq!(normalize_audio_resource_name("x.tar.gz"), "x.tar");
}

#[test]
fn normalize_counts_characters_not_bytes() {
    assert_eq!(
        normalize_audio_resource_name("ééééééééééééééééééé.wav"),
        "éééééééééééééééé"
    );
}

#[test]
fn channel_names_count_from_one() {
    assert_eq!(channel_resource_name("take.wav", 9), "take_ch10");
    assert_eq!(channel_resource_name("", 0), "resource_ch1");
}

#[test]
fn resource_id_keeps_its_text() {
    let id = ResourceId::new("kick".to_string());
    assert_eq!(id.as_str(), "kick");
    assert_eq!(id.clone(), id);
    let text: &str = id.as_ref();
    assert_eq!(text, "kick");
}

#[test]
fn audio_buffer_new_refuses_bad_layouts() {
    let no_channels = AudioBuffer::<f32>::new(vec![1.0], 48_000, 0);
    assert_eq!(
        no_channels.err().unwrap(),
        "audio buffer must have at least one channel"
    );
    let misaligned = AudioBuffer::<f32>::new(vec![1.0, 2.0, 3.0], 48_000, 2);
    assert_eq!(
        misaligned.err().unwrap(),
        "audio samples must align with the channel count"
    );
    let ok = AudioBuffer::<f32>::new(vec![1.0, 2.0, 3.0, 4.0, 5.0, 6.0], 48_000, 3).unwrap();
    assert_eq!(ok.frames(), 2);
    assert_eq!(ok.sample_rate, 48_000);
}

#[test]
fn mono_buffers_have_one_channel() {
    let mono = AudioBuffer::<f32>::mono(vec![0.5, 0.25], 22_050);
    assert_eq!(mono.channels, 1);
    assert_eq!(mono.frames(), 2);
    assert_eq!(mono.channel_samples(0).unwrap(), vec![0.5, 0.25]);
    assert!(mono.channel_samples(1).is_none());
}

#[test]
fn channel_samples_deinterleave() {
    let buffer =
        AudioBuffer::<f32>::new(vec![1.0, 2.0, 3.0, 4.0, 5.0, 6.0], 44_100, 3).unwrap();
    assert_eq!(buffer.channel_samples(0).unwrap(), vec![1.0, 4.0]);
    assert_eq!(buffer.channel_samples(1).unwrap(), vec![2.0, 5.0]);
    assert_eq!(buffer.channel_samples(2).unwrap(), vec![3.0, 6.0]);
    assert!(buffer.channel_samples(3).is_none());
}

#[test]
fn split_channels_keep_sample_rate() {
    let buffer = AudioBuffer::<f32>::new(vec![1.0, 2.0, 3.0, 4.0], 96_000, 4).unwrap();
    let parts = buffer.split_channels();
    assert_eq!(parts.len(), 4);
    for (c, part) in parts.iter().enumerate() {
        assert_eq!(part.sample_rate, 96_000);
        assert_eq!(part.channels, 1);
        assert_eq!(part.samples.as_ref(), &vec![(c + 1) as f32]);
    }
}

#[test]
fn resources_know_their_kind() {
    let audio: Res = Resource::audio(AudioBuffer::mono(vec![0.0], 8_000));
    assert_eq!(audio.kind(), "audio");
    assert!(audio.as_audio().is_some());
    assert!(audio.as_bytes().is_none());
    let bytes: Res = Resource::bytes(vec![1, 2, 3]);
    assert_eq!(bytes.kind(), "bytes");
    assert_eq!(bytes.as_bytes().unwrap(), &[1, 2, 3]);
    assert!(bytes.as_audio().is_none());
    let any: Res = Resource::Any(std::sync::Arc::new(7));
    assert_eq!(any.kind(), "any");
    let text: Res = Resource::Text(std::sync::Arc::new("héllo".to_string()));
    assert_eq!(text.kind(), "text");
    let f32s: Res = Resource::F32(std::sync::Arc::new(vec![1.0]));
    assert_eq!(f32s.kind(), "f32");
    let f64s: Res = Resource::F64(std::sync::Arc::new(vec![1.0]));
    assert_eq!(f64s.kind(), "f64");
}

#[test]
fn resources_describe_themselves() {
    let audio: Res =
        Resource::audio(AudioBuffer::new(vec![0.0, 0.0, 0.0, 0.0], 44_100, 2).unwrap());
    assert_eq!(
        audio.describe(),
        "AudioBuffer { sample_rate: 44100, channels: 2, samples: 4 }"
    );
    let text: Res = Resource::Text(std::sync::Arc::new("héllo".to_string()));
    assert_eq!(text.describe(), "Text(6)");
    let bytes: Res = Resource::bytes(vec![1, 2, 3]);
    assert_eq!(bytes.describe(), "Bytes(3)");
    let any: Res = Resource::Any(std::sync::Arc::new(7));
    assert_eq!(any.describe(), "Any(<opaque>)");
    let f64s: Res = Resource::F64(std::sync::Arc::new(vec![1.0, 2.0]));
    assert_eq!(f64s.describe(), "F64(2)");
}

fn bytes_of(r: &Res) -> Vec<u8> {
    r.as_bytes().unwrap().to_vec()
}

#[test]
fn manager_add_get_remove() {
    let mut m = Manager::new();
    assert!(m.add("a", Resource::bytes(vec![1])).is_ok());
    assert_eq!(
        m.add("a", Resource::bytes(vec![2])).err().unwrap(),
        "resource already exists: a"
    );
    assert_eq!(bytes_of(m.get("a").unwrap()), vec![1]);
    assert_eq!(bytes_of(&m.get_cloned("a").unwrap()), vec![1]);
    assert!(m.get("b").is_none());
    assert_eq!(bytes_of(&m.remove("a").unwrap()), vec![1]);
    assert_eq!(m.remove("a").err().unwrap(), "resource not found: a");
    assert!(m.get("a").is_none());
}

#[test]
fn manager_insert_replaces_and_returns_previous() {
    let mut m = Manager::new();
    assert!(m.insert("a", Resource::bytes(vec![1])).unwrap().is_none());
    let prev = m.insert("a", Resource::bytes(vec![2])).unwrap().unwrap();
    assert_eq!(bytes_of(&prev), vec![1]);
    assert_eq!(bytes_of(m.get("a").unwrap()), vec![2]);
    assert_eq!(m.snapshot().len(), 1);
}

#[test]
fn manager_rename_rules() {
    let mut m = Manager::new();
    m.add("a", Resource::bytes(vec![1])).unwrap();
    m.add("b", Resource::bytes(vec![2])).unwrap();
    assert_eq!(m.rename("a", "b").err().unwrap(), "resource already exists: b");
    assert_eq!(m.rename("zz", "c").err().unwrap(), "resource not found: zz");
    assert_eq!(m.rename("a", "a").err().unwrap(), "resource already exists: a");
    assert!(m.rename("a", "c").is_ok());
    assert!(m.get("a").is_none());
    assert_eq!(bytes_of(m.get("c").unwrap()), vec![1]);
    assert!(m.rename("c", "a").is_ok());
    assert_eq!(bytes_of(m.get("a").unwrap()), vec![1]);
}

#[test]
fn manager_remove_matching_prefix() {
    let mut m = Manager::new();
    for id in ["song", "song_ch1", "song_ch2", "songbird", "song_x", "other"] {
        m.add(id, Resource::bytes(vec![])).unwrap();
    }
    let mut removed: Vec<String> = m
        .remove_matching_prefix("song")
        .into_iter()
        .map(|(id, _)| id.as_str().to_string())
        .collect();
    removed.sort();
    assert_eq!(removed, vec!["song", "song_ch1", "song_ch2"]);
    let mut left: Vec<String> = m
        .snapshot()
        .into_iter()
        .map(|(id, _)| id.as_str().to_string())
        .collect();
    left.sort();
    assert_eq!(left, vec!["other", "song_x", "songbird"]);
    assert!(m.remove_matching_prefix("song").is_empty());
}

#[test]
fn manager_prune_except() {
    let mut m = Manager::new();
    for id in ["a", "b", "c"] {
        m.add(id, Resource::bytes(vec![])).unwrap();
    }
    let pruned = m.prune_except(vec!["a".to_string(), "c".to_string(), "zzz".to_string()]);
    assert_eq!(pruned.len(), 1);
    assert_eq!(pruned[0].0.as_str(), "b");
    assert_eq!(m.snapshot().len(), 2);
    assert!(m.get("a").is_some() && m.get("c").is_some());
    assert!(m.prune_except(vec!["a".to_string(), "c".to_string()]).is_empty());
}

#[test]
fn manager_clone_and_default() {
    let mut m = Manager::default();
    m.add("a", Resource::bytes(vec![4])).unwrap();
    let copy = m.clone();
    m.remove("a").unwrap();
    assert_eq!(bytes_of(copy.get("a").unwrap()), vec![4]);
    assert!(m.get("a").is_none());
}
