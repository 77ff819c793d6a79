//! The bundled inference engine: which servers to start and with what
//! arguments, which models to fetch, how download progress is reported, and
//! when a server counts as ready.
use vstd::prelude::*;
use vstd::string::StringExecFns;
use crate::text::{decimal, push_decimal};

verus! {

/// The loopback address the servers listen on.
pub const HOST: &'static str = "127.0.0.1";

/// Port of the chat server.
pub const CHAT_PORT: u16 = 11500;

/// Port of the embedding server.
pub const EMBED_PORT: u16 = 11501;

/// File name of the chat model.
pub const CHAT_MODEL_FILE: &'static str = "Phi-3.5-mini-instruct-Q4_K_M.gguf";

/// File name of the embedding model.
pub const EMBED_MODEL_FILE: &'static str = "nomic-embed-text-v1.5.f16.gguf";

/// Display name of the chat model.
pub const CHAT_MODEL_NAME: &'static str = "Phi-3.5-mini-instruct";

/// Where the chat model is downloaded from.
pub const CHAT_MODEL_URL: &'static str = "https://huggingface.co/bartowski/Phi-3.5-mini-instruct-GGUF/resolve/main/Phi-3.5-mini-instruct-Q4_K_M.gguf";

/// Where the embedding model is downloaded from.
pub const EMBED_MODEL_URL: &'static str = "https://huggingface.co/nomic-ai/nomic-embed-text-v1.5-GGUF/resolve/main/nomic-embed-text-v1.5.f16.gguf";

/// Bytes between two progress reports of a download.
pub const PROGRESS_STEP: u64 = 4_000_000;

/// The name of the chat model, as the interface shows it.
pub fn engine_model_name() -> (r: String)
    ensures
        r@ == CHAT_MODEL_NAME@,
{
    CHAT_MODEL_NAME.to_string()
}

/// Whether the engine can start: both model files are present.
pub fn models_present(chat_present: bool, embed_present: bool) -> (r: bool)
    ensures
        r == (chat_present && embed_present),
{
    chat_present && embed_present
}

/// Whether the engine is ready: both servers answer their health check.
pub fn engine_ready(chat_healthy: bool, embed_healthy: bool) -> (r: bool)
    ensures
        r == (chat_healthy && embed_healthy),
{
    chat_healthy && embed_healthy
}

/// The command-line arguments of a llama.cpp server for a model: it listens
/// on [`HOST`] at `port`, with a 2048-token context for embeddings (mean
/// pooling) and an 8192-token context for chat.
pub open spec fn server_args_spec(model: Seq<char>, port: u16, embedding: bool) -> Seq<Seq<char>> {
    let base = seq![
        "--model"@,
        model,
        "--host"@,
        HOST@,
        "--port"@,
        decimal(port as nat),
        "--ctx-size"@,
        if embedding { "2048"@ } else { "8192"@ },
    ];
    if embedding {
        base + seq!["--embedding"@, "--pooling"@, "mean"@]
    } else {
        base
    }
}

/// Executable [`server_args_spec`].
pub fn server_args(model: &str, port: u16, embedding: bool) -> (r: Vec<String>)
    ensures
        r.deep_view() == server_args_spec(model@, port, embedding),
{
    let mut port_text = String::new();
    push_decimal(&mut port_text, port as u64);
    let mut r: Vec<String> = Vec::new();
    r.push("--model".to_string());
    r.push(model.to_string());
    r.push("--host".to_string());
    r.push(HOST.to_string());
    r.push("--port".to_string());
    r.push(port_text);
    r.push("--ctx-size".to_string());
    r.push(if embedding { "2048".to_string() } else { "8192".to_string() });
    if embedding {
        r.push("--embedding".to_string());
        r.push("--pooling".to_string());
        r.push("mean".to_string());
    }
    assert(r.deep_view() =~= server_args_spec(model@, port, embedding));
    r
}

/// One server to start: the model file, the port, and whether it embeds.
pub struct ServerSpec {
    /// File name of the model in the model directory.
    pub model_file: String,
    /// Port to listen on.
    pub port: u16,
    /// Whether the server computes embeddings (otherwise it chats).
    pub embedding: bool,
}

/// The servers to start: none when the engine already runs, otherwise the
/// chat server and then the embedding server.
pub fn engine_plan(running: bool) -> (r: Vec<ServerSpec>)
    ensures
        running ==> r.len() == 0,
        !running ==> r.len() == 2 && r@[0].model_file@ == CHAT_MODEL_FILE@ && r@[0].port == CHAT_PORT
            && !r@[0].embedding && r@[1].model_file@ == EMBED_MODEL_FILE@ && r@[1].port == EMBED_PORT
            && r@[1].embedding,
{
    let mut r: Vec<ServerSpec> = Vec::new();
    if running {
        return r;
    }
    r.push(ServerSpec { model_file: CHAT_MODEL_FILE.to_string(), port: CHAT_PORT, embedding: false });
    r.push(ServerSpec { model_file: EMBED_MODEL_FILE.to_string(), port: EMBED_PORT, embedding: true });
    r
}

/// A model file to download, and from where.
pub struct ModelDownload {
    /// File name in the model directory.
    pub file: String,
    /// Source URL.
    pub url: String,
}

/// The model files still to download: each one that is not present, chat
/// model first.
pub fn downloads_needed(chat_present: bool, embed_present: bool) -> (r: Vec<ModelDownload>)
    ensures
        r.len() == (if chat_present { 0int } else { 1int }) + (if embed_present { 0int } else { 1int }),
        !chat_present ==> r@[0].file@ == CHAT_MODEL_FILE@ && r@[0].url@ == CHAT_MODEL_URL@,
        !embed_present ==> r@[r.len() - 1].file@ == EMBED_MODEL_FILE@ && r@[r.len() - 1].url@
            == EMBED_MODEL_URL@,
{
    let mut r: Vec<ModelDownload> = Vec::new();
    if !chat_present {
        r.push(ModelDownload { file: CHAT_MODEL_FILE.to_string(), url: CHAT_MODEL_URL.to_string() });
    }
    if !embed_present {
        r.push(ModelDownload { file: EMBED_MODEL_FILE.to_string(), url: EMBED_MODEL_URL.to_string() });
    }
    r
}

/// What the model download does next.
pub enum DownloadAction {
    /// Download `url` into the model file `file`.
    Fetch { file: String, url: String },
    /// Every missing model arrived.
    Finished,
    /// A download failed with `message`; nothing more is tried.
    Failed { message: String },
}

/// The first-run download of the missing models: the files to fetch, how
/// many arrived, and the error that stopped it, if one did.
pub struct DownloadRun {
    /// The files to fetch, in order.
    pub todo: Vec<ModelDownload>,
    /// How many of them arrived.
    pub fetched: usize,
    /// The error of the download that failed.
    pub error: Option<String>,
}

impl DownloadRun {
    /// A run for the models that are not present: nothing fetched yet.
    pub fn start(chat_present: bool, embed_present: bool) -> (r: DownloadRun)
        ensures
            r.todo.len() == (if chat_present { 0int } else { 1int }) + (if embed_present { 0int } else { 1int }),
            !chat_present ==> r.todo@[0].file@ == CHAT_MODEL_FILE@ && r.todo@[0].url@ == CHAT_MODEL_URL@,
            !embed_present ==> r.todo@[r.todo.len() - 1].file@ == EMBED_MODEL_FILE@
                && r.todo@[r.todo.len() - 1].url@ == EMBED_MODEL_URL@,
            r.fetched == 0,
            r.error is None,
    {
        DownloadRun { todo: downloads_needed(chat_present, embed_present), fetched: 0, error: None }
    }

    /// The next step: the first error once one came; otherwise the next file
    /// to fetch; otherwise the end.
    pub fn next_action(&self) -> (a: DownloadAction)
        ensures
            self.error matches Some(e) ==> (a matches DownloadAction::Failed { message } && message
                == e),
            self.error is None && self.fetched < self.todo.len() ==> (a matches DownloadAction::Fetch {
                file,
                url,
            } && file == self.todo@[self.fetched as int].file && url == self.todo@[self.fetched as int].url),
            self.error is None && self.fetched >= self.todo.len() ==> a is Finished,
    {
        match &self.error {
            Some(e) => DownloadAction::Failed { message: e.clone() },
            None => {
                if self.fetched < self.todo.len() {
                    let d = &self.todo[self.fetched];
                    DownloadAction::Fetch { file: d.file.clone(), url: d.url.clone() }
                } else {
                    DownloadAction::Finished
                }
            },
        }
    }

    /// Records how the fetch of the next file ended.  After a failure the run
    /// stays failed with that first error.
    pub fn record(&mut self, outcome: Result<(), String>)
        ensures
            final(self).todo == old(self).todo,
            old(self).error is Some ==> *final(self) == *old(self),
            old(self).error is None ==> match outcome {
                Ok(()) => final(self).error is None && final(self).fetched == (if old(self).fetched
                    < old(self).todo.len() {
                    old(self).fetched + 1
                } else {
                    old(self).fetched as int
                }),
                Err(e) => final(self).error == Some(e) && final(self).fetched == old(self).fetched,
            },
    {
        if self.error.is_some() {
            return;
        }
        match outcome {
            Ok(()) => {
                if self.fetched < self.todo.len() {
                    self.fetched = self.fetched + 1;
                }
            },
            Err(e) => {
                self.error = Some(e);
            },
        }
    }
}

/// One progress report of a model download.
pub struct DownloadProgress {
    /// File name being downloaded.
    pub file: String,
    /// Bytes received so far.
    pub downloaded: u64,
    /// Bytes expected in all (0 when the server did not say).
    pub total: u64,
    /// Whether the download has finished.
    pub done: bool,
}

/// The progress of one download: bytes received, and where the last report
/// was made.
pub struct DownloadTracker {
    /// File name being downloaded.
    pub file: String,
    /// Bytes expected in all (0 when unknown).
    pub total: u64,
    /// Bytes received so far.
    pub downloaded: u64,
    /// Bytes received when the last report was made.
    pub last_report: u64,
}

impl DownloadTracker {
    /// A tracker for a download that has not received anything yet.
    pub fn new(file: &str, total: u64) -> (t: DownloadTracker)
        ensures
            t.file@ == file@,
            t.total == total,
            t.downloaded == 0,
            t.last_report == 0,
    {
        DownloadTracker { file: file.to_string(), total, downloaded: 0, last_report: 0 }
    }

    /// Counts a received piece of `len` bytes; reports progress when at least
    /// [`PROGRESS_STEP`] bytes came in since the last report.
    pub fn on_chunk(&mut self, len: u64) -> (r: Option<DownloadProgress>)
        requires
            old(self).last_report <= old(self).downloaded,
            old(self).downloaded + len <= u64::MAX,
        ensures
            final(self).file == old(self).file,
            final(self).total == old(self).total,
            final(self).downloaded == old(self).downloaded + len,
            final(self).last_report <= final(self).downloaded,
            final(self).downloaded - old(self).last_report >= PROGRESS_STEP ==> {
                &&& final(self).last_report == final(self).downloaded
                &&& r matches Some(p)
                &&& p.file == old(self).file
                &&& p.downloaded == final(self).downloaded
                &&& p.total == old(self).total
                &&& !p.done
            },
            final(self).downloaded - old(self).last_report < PROGRESS_STEP ==> {
                &&& final(self).last_report == old(self).last_report
                &&& r is None
            },
    {
        self.downloaded = self.downloaded + len;
        if self.downloaded - self.last_report >= PROGRESS_STEP {
            self.last_report = self.downloaded;
            Some(
                DownloadProgress {
                    file: self.file.clone(),
                    downloaded: self.downloaded,
                    total: self.total,
                    done: false,
                },
            )
        } else {
            None
        }
    }

    /// The report made once the file is complete.
    pub fn finish(&self) -> (p: DownloadProgress)
        ensures
            p.file == self.file,
            p.downloaded == self.downloaded,
            p.total == self.total,
            p.done,
    {
        DownloadProgress {
            file: self.file.clone(),
            downloaded: self.downloaded,
            total: self.total,
            done: true,
        }
    }
}

/// What to do after one health check of a server.
pub enum HealthStep {
    /// The server answered with success: it is ready.
    Ready,
    /// The time allowed is up: give up.
    GiveUp,
    /// Wait a moment and check again.
    Retry,
}

/// Decides after one health check: ready on success; otherwise give up once
/// `elapsed_secs` reaches `max_secs`, else retry.
pub fn health_step(success: bool, elapsed_secs: u64, max_secs: u64) -> (r: HealthStep)
    ensures
        success ==> r is Ready,
        !success && elapsed_secs >= max_secs ==> r is GiveUp,
        !success && elapsed_secs < max_secs ==> r is Retry,
{
    if success {
        HealthStep::Ready
    } else if elapsed_secs >= max_secs {
        HealthStep::GiveUp
    } else {
        HealthStep::Retry
    }
}

/// The address of a local server's endpoint: `http://127.0.0.1:<port><path>`.
pub open spec fn local_url(port: u16, path: Seq<char>) -> Seq<char> {
    "http://"@ + HOST@ + ":"@ + decimal(port as nat) + path
}

/// Executable [`local_url`].
pub fn local_url_exec(port: u16, path: &str) -> (r: String)
    ensures
        r@ == local_url(port, path@),
{
    let mut r = String::new();
    r.append("http://");
    r.append(HOST);
    r.append(":");
    push_decimal(&mut r, port as u64);
    r.append(path);
    r
}

/// The health endpoint of the server on `port`.
pub fn health_url(port: u16) -> (r: String)
    ensures
        r@ == local_url(port, "/health"@),
{
    local_url_exec(port, "/health")
}

/// The embeddings endpoint of the embedding server.
pub fn embeddings_url() -> (r: String)
    ensures
        r@ == local_url(EMBED_PORT, "/v1/embeddings"@),
{
    local_url_exec(EMBED_PORT, "/v1/embeddings")
}

/// The streaming chat endpoint of the chat server.
pub fn chat_url() -> (r: String)
    ensures
        r@ == local_url(CHAT_PORT, "/v1/chat/completions"@),
{
    local_url_exec(CHAT_PORT, "/v1/chat/completions")
}

/// Where the models live.
pub enum ModelDirChoice {
    /// The directory named by the override setting.
    Override,
    /// The models bundled with the application's resources.
    Bundled,
    /// The `models` directory of the application's data directory.
    AppData,
    /// A `models` directory relative to the working directory.
    Fallback,
}

/// Chooses the model directory: an override wins; else the bundled models
/// when the bundled chat model exists; else the app-data directory when it
/// can be found; else the fallback.
pub fn choose_model_dir(has_override: bool, bundled_chat_exists: bool, has_app_data: bool) -> (r: ModelDirChoice)
    ensures
        has_override ==> r is Override,
        !has_override && bundled_chat_exists ==> r is Bundled,
        !has_override && !bundled_chat_exists && has_app_data ==> r is AppData,
        !has_override && !bundled_chat_exists && !has_app_data ==> r is Fallback,
{
    if has_override {
        ModelDirChoice::Override
    } else if bundled_chat_exists {
        ModelDirChoice::Bundled
    } else if has_app_data {
        ModelDirChoice::AppData
    } else {
        ModelDirChoice::Fallback
    }
}

/// Where the engine binaries live.
pub enum EngineDirChoice {
    /// The directory named by the override setting.
    Override,
    /// The `resources/engine` directory of the application's resources.
    Resources,
    /// A `resources/engine` directory relative to the working directory.
    Fallback,
}

/// Chooses the engine directory: an override wins; else the application's
/// resources when they can be found; else the fallback.
pub fn choose_engine_dir(has_override: bool, has_resource_dir: bool) -> (r: EngineDirChoice)
    ensures
        has_override ==> r is Override,
        !has_override && has_resource_dir ==> r is Resources,
        !has_override && !has_resource_dir ==> r is Fallback,
{
    if has_override {
        EngineDirChoice::Override
    } else if has_resource_dir {
        EngineDirChoice::Resources
    } else {
        EngineDirChoice::Fallback
    }
}

} // verus!
