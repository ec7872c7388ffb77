//! The configurable recorder: full, simplified or summary records of a
//! connection, and the file each is saved to.

use vstd::prelude::*;
use crate::recorder::ProxyBehavior;
use crate::text::string_push_str;

verus! {

broadcast use vstd::string::group_string_axioms;

/// How a record file is encoded.
#[derive(Debug, Clone, Copy, Default, PartialEq, Eq)]
pub enum OutputFileExtension {
    #[default]
    Json,
    Cbor,
}

/// The layout of a record file.
#[derive(Debug, Clone, Copy, Default, PartialEq, Eq)]
pub enum OutputFormat {
    #[default]
    Ruci,
    Har,
}

/// How much of the traffic is kept.
#[derive(Debug, Clone, Copy, Default, PartialEq, Eq)]
pub enum RecordMode {
    #[default]
    Full,
    Simplified,
    Info,
}

/// Whether each piece is cut, and to how many bytes.
#[derive(Debug, Clone, Copy, Default, PartialEq, Eq)]
pub enum PieceTruncateOption {
    #[default]
    NoTruncate,
    PieceTruncate(usize),
}

/// Whether a session is cut, and to how many bytes.
#[derive(Debug, Clone, Copy, Default, PartialEq, Eq)]
pub enum SessionTruncateOption {
    #[default]
    NoTruncate,
    SessionTruncate(usize),
}

/// The recorder's settings.
#[derive(Debug, Clone, Default)]
pub struct Config {
    pub label: Option<String>,
    pub output_file_extension: OutputFileExtension,
    pub output_format: OutputFormat,
    pub record_mode: RecordMode,
    pub piece_truncate_option: Option<PieceTruncateOption>,
    pub session_truncate_option: Option<SessionTruncateOption>,
}

/// The run-wide data kept with a record; the start time is seconds and
/// nanoseconds since the Unix epoch.
#[derive(Debug, Clone, Default)]
pub struct SerializableGlobalData {
    pub run_instance_id: u32,
    pub instance_start_time: Option<(i64, u32)>,
    pub read_handshake_timeout: Option<u64>,
}

/// One read or write of the full record: time and bytes, and for
/// datagrams the peer address.
#[derive(Debug, Clone)]
pub enum FullPayloadData {
    Tcp(u128, Vec<u8>),
    Udp(u128, String, Vec<u8>),
}

/// Everything that passed, with times.
#[derive(Debug, Clone, Default)]
pub struct FullData {
    pub cid: String,
    pub behavior: ProxyBehavior,
    pub label: Option<String>,
    pub global_data: Option<SerializableGlobalData>,
    pub upload_data: Vec<FullPayloadData>,
    pub download_data: Vec<FullPayloadData>,
}

/// The data that passed, in order, each piece marked `1` for upload and
/// `-1` for download; no times, no addresses.
#[derive(Debug, Clone, Default)]
pub struct SimplifiedRecordData {
    pub cid: String,
    pub label: Option<String>,
    pub data: Vec<(i8, Vec<u8>)>,
}

/// The size of one read or write: time, direction (`1` up, `-1` down),
/// length, and for datagrams the peer address.
#[derive(Debug, Clone)]
pub enum PayloadInfo {
    Tcp(u128, i8, usize),
    Udp(u128, String, i8, usize),
}

/// The sizes of everything that passed.
#[derive(Debug, Clone, Default)]
pub struct InfoData {
    pub cid: String,
    pub behavior: ProxyBehavior,
    pub label: Option<String>,
    pub global_data: Option<SerializableGlobalData>,
    pub payload: Vec<PayloadInfo>,
}

/// A recorder that keeps everything.
#[derive(Debug, Clone)]
pub struct FullRecorder {
    pub config: Config,
    pub data: FullData,
}

/// A recorder that keeps the data without times.
#[derive(Debug, Clone)]
pub struct SimplifiedRecorder {
    pub config: Config,
    pub data: SimplifiedRecordData,
}

/// A recorder that keeps only sizes.
#[derive(Debug, Clone)]
pub struct InfoRecorder {
    pub config: Config,
    pub data: InfoData,
}

/// The recorder the configured mode calls for.
#[derive(Debug, Clone)]
pub enum Recorder {
    Full(FullRecorder),
    Simplified(SimplifiedRecorder),
    Info(InfoRecorder),
}

/// Where and how a record is saved.
pub struct SaveTarget {
    pub file_name: String,
    pub encoding: OutputFileExtension,
    /// Whether the record is converted to an HTTP archive first.
    pub as_har: bool,
}

impl Recorder {
    /// The connection id of the record.
    pub open spec fn cid_spec(&self) -> Seq<char> {
        match self {
            Recorder::Full(r) => r.data.cid@,
            Recorder::Simplified(r) => r.data.cid@,
            Recorder::Info(r) => r.data.cid@,
        }
    }

    /// The settings of the recorder.
    pub open spec fn config_spec(&self) -> Config {
        match self {
            Recorder::Full(r) => r.config,
            Recorder::Simplified(r) => r.config,
            Recorder::Info(r) => r.config,
        }
    }

    /// A recorder for connection `cid` in the mode that `config` sets.
    pub fn new(config: Config, cid: String, behavior: ProxyBehavior, global_data: Option<SerializableGlobalData>) -> (r: Recorder)
        ensures
            r.cid_spec() == cid@,
            r.config_spec() == config,
            config.record_mode == RecordMode::Full ==> (r matches Recorder::Full(f)
                && f.data.behavior == behavior && f.data.label == config.label && f.data.global_data == global_data
                && f.data.upload_data@.len() == 0 && f.data.download_data@.len() == 0),
            config.record_mode == RecordMode::Simplified ==> (r matches Recorder::Simplified(s)
                && s.data.label == config.label && s.data.data@.len() == 0),
            config.record_mode == RecordMode::Info ==> (r matches Recorder::Info(i)
                && i.data.behavior == behavior && i.data.label == config.label && i.data.global_data == global_data
                && i.data.payload@.len() == 0),
    {
        let label = config.label.clone();
        match config.record_mode {
            RecordMode::Full => Recorder::Full(FullRecorder {
                config,
                data: FullData {
                    cid,
                    behavior,
                    label,
                    global_data,
                    upload_data: Vec::new(),
                    download_data: Vec::new(),
                },
            }),
            RecordMode::Simplified => Recorder::Simplified(SimplifiedRecorder {
                config,
                data: SimplifiedRecordData { cid, label, data: Vec::new() },
            }),
            RecordMode::Info => Recorder::Info(InfoRecorder {
                config,
                data: InfoData { cid, behavior, label, global_data, payload: Vec::new() },
            }),
        }
    }

    /// The connection id of the record.
    pub fn cid(&self) -> (r: &str)
        ensures
            r@ == self.cid_spec(),
    {
        match self {
            Recorder::Full(r) => r.data.cid.as_str(),
            Recorder::Simplified(r) => r.data.cid.as_str(),
            Recorder::Info(r) => r.data.cid.as_str(),
        }
    }

    /// The label of the record, empty when none is set.
    pub fn label(&self) -> (r: &str)
        ensures
            r@ == (match self {
                Recorder::Full(x) => match x.data.label { Some(l) => l@, None => Seq::empty() },
                Recorder::Simplified(x) => match x.data.label { Some(l) => l@, None => Seq::empty() },
                Recorder::Info(x) => match x.data.label { Some(l) => l@, None => Seq::empty() },
            }),
    {
        let l = match self {
            Recorder::Full(r) => &r.data.label,
            Recorder::Simplified(r) => &r.data.label,
            Recorder::Info(r) => &r.data.label,
        };
        proof {
            reveal_strlit("");
        }
        match l {
            Some(s) => s.as_str(),
            None => "",
        }
    }

    /// Records uploaded `data`, seen `nanos` after the start.
    pub fn record_u(&mut self, data: &[u8], nanos: u128)
        ensures
            final(self).cid_spec() == old(self).cid_spec(),
            final(self).config_spec() == old(self).config_spec(),
            Self::recorded(*old(self), *final(self), data@, nanos, 1i8),
    {
        match self {
            Recorder::Full(r) => {
                let v = vstd::slice::slice_to_vec(data);
                let ghost before = r.data.upload_data@;
                r.data.upload_data.push(FullPayloadData::Tcp(nanos, v));
                assert(r.data.upload_data@.drop_last() =~= before);
            },
            Recorder::Simplified(r) => {
                let v = vstd::slice::slice_to_vec(data);
                let ghost before = r.data.data@;
                r.data.data.push((1, v));
                assert(r.data.data@.drop_last() =~= before);
            },
            Recorder::Info(r) => {
                let ghost before = r.data.payload@;
                r.data.payload.push(PayloadInfo::Tcp(nanos, 1, data.len()));
                assert(r.data.payload@.drop_last() =~= before);
            },
        }
    }

    /// Records downloaded `data`, seen `nanos` after the start.
    pub fn record_d(&mut self, data: &[u8], nanos: u128)
        ensures
            final(self).cid_spec() == old(self).cid_spec(),
            final(self).config_spec() == old(self).config_spec(),
            Self::recorded(*old(self), *final(self), data@, nanos, -1i8),
    {
        match self {
            Recorder::Full(r) => {
                let v = vstd::slice::slice_to_vec(data);
                let ghost before = r.data.download_data@;
                r.data.download_data.push(FullPayloadData::Tcp(nanos, v));
                assert(r.data.download_data@.drop_last() =~= before);
            },
            Recorder::Simplified(r) => {
                let v = vstd::slice::slice_to_vec(data);
                let ghost before = r.data.data@;
                r.data.data.push((-1, v));
                assert(r.data.data@.drop_last() =~= before);
            },
            Recorder::Info(r) => {
                let ghost before = r.data.payload@;
                r.data.payload.push(PayloadInfo::Tcp(nanos, -1, data.len()));
                assert(r.data.payload@.drop_last() =~= before);
            },
        }
    }

    /// `after` is `before` with one read or write of `data` in direction
    /// `dir` recorded at `nanos`, as the recorder's mode keeps it.
    pub open spec fn recorded(before: Recorder, after: Recorder, data: Seq<u8>, nanos: u128, dir: i8) -> bool {
        match (before, after) {
            (Recorder::Full(b), Recorder::Full(a)) => {
                &&& a.data.cid == b.data.cid
                &&& a.data.label == b.data.label
                &&& if dir == 1 {
                    &&& a.data.download_data == b.data.download_data
                    &&& a.data.upload_data@.drop_last() == b.data.upload_data@
                    &&& a.data.upload_data@.len() == b.data.upload_data@.len() + 1
                    &&& a.data.upload_data@.last() matches FullPayloadData::Tcp(t, v) && t == nanos && v@ == data
                } else {
                    &&& a.data.upload_data == b.data.upload_data
                    &&& a.data.download_data@.drop_last() == b.data.download_data@
                    &&& a.data.download_data@.len() == b.data.download_data@.len() + 1
                    &&& a.data.download_data@.last() matches FullPayloadData::Tcp(t, v) && t == nanos && v@ == data
                }
            },
            (Recorder::Simplified(b), Recorder::Simplified(a)) => {
                &&& a.data.cid == b.data.cid
                &&& a.data.label == b.data.label
                &&& a.data.data@.drop_last() == b.data.data@
                &&& a.data.data@.len() == b.data.data@.len() + 1
                &&& a.data.data@.last().0 == dir
                &&& a.data.data@.last().1@ == data
            },
            (Recorder::Info(b), Recorder::Info(a)) => {
                &&& a.data.cid == b.data.cid
                &&& a.data.label == b.data.label
                &&& a.data.payload@.drop_last() == b.data.payload@
                &&& a.data.payload@.len() == b.data.payload@.len() + 1
                &&& a.data.payload@.last() matches PayloadInfo::Tcp(t, d, n) && t == nanos && d == dir && n == data.len()
            },
            _ => false,
        }
    }

    /// Where the record goes: `<cid>.json` or `<cid>.cbor` in the
    /// recorder's own layout, `<cid>.har` as an HTTP archive encoded as
    /// configured. A full record has no HTTP archive form.
    pub fn save_target(&self) -> (r: SaveTarget)
        requires
            !(self is Full && self.config_spec().output_format == OutputFormat::Har),
        ensures
            r.encoding == self.config_spec().output_file_extension,
            r.as_har == (self.config_spec().output_format == OutputFormat::Har),
            r.file_name@ == self.cid_spec() + (if r.as_har {
                ".har"@
            } else if r.encoding == OutputFileExtension::Json {
                ".json"@
            } else {
                ".cbor"@
            }),
    {
        let config = match self {
            Recorder::Full(r) => &r.config,
            Recorder::Simplified(r) => &r.config,
            Recorder::Info(r) => &r.config,
        };
        let mut name = String::new();
        string_push_str(&mut name, self.cid());
        let as_har = match config.output_format {
            OutputFormat::Ruci => false,
            OutputFormat::Har => true,
        };
        if as_har {
            string_push_str(&mut name, ".har");
        } else {
            match config.output_file_extension {
                OutputFileExtension::Json => string_push_str(&mut name, ".json"),
                OutputFileExtension::Cbor => string_push_str(&mut name, ".cbor"),
            }
        }
        SaveTarget { file_name: name, encoding: config.output_file_extension, as_har }
    }
}

} // verus!
