//! The options of the command line.

use vstd::prelude::*;

verus! {

/// What the user asked for on the command line.
#[derive(Debug, Clone)]
pub struct Options {
    version: bool,
    search: bool,
    device: Vec<uuid::Uuid>,
    verbose: bool,
    output: Option<std::path::PathBuf>,
    json: bool,
    websocket: bool,
    port: u16,
}

impl Options {
    /// Whether the version is to be printed.
    pub closed spec fn spec_version(&self) -> bool {
        self.version
    }

    /// Whether the connected devices are to be listed.
    pub closed spec fn spec_search(&self) -> bool {
        self.search
    }

    /// The devices to start.
    pub closed spec fn spec_device(&self) -> Seq<uuid::Uuid> {
        self.device@
    }

    /// Whether to print more.
    pub closed spec fn spec_verbose(&self) -> bool {
        self.verbose
    }

    /// The file to save the data in.
    pub closed spec fn spec_output(&self) -> Option<std::path::PathBuf> {
        self.output
    }

    /// Whether the file is to be JSON.
    pub closed spec fn spec_json(&self) -> bool {
        self.json
    }

    /// Whether the websocket is to be started.
    pub closed spec fn spec_websocket(&self) -> bool {
        self.websocket
    }

    /// The port of the websocket.
    pub closed spec fn spec_port(&self) -> u16 {
        self.port
    }

    /// The options with the given settings.
    pub fn new(
        version: bool,
        search: bool,
        device: Vec<uuid::Uuid>,
        verbose: bool,
        output: Option<std::path::PathBuf>,
        json: bool,
        websocket: bool,
        port: u16,
    ) -> (options: Self)
        ensures
            options.version() == version,
            options.search() == search,
            options.spec_device() == device@,
            options.verbose() == verbose,
            options.spec_output() == output,
            options.json() == json,
            options.websocket() == websocket,
            options.port() == port,
    {
        Self { version, search, device, verbose, output, json, websocket, port }
    }

    /// Whether the version is to be printed.
    #[verifier::when_used_as_spec(spec_version)]
    pub fn version(&self) -> (set: bool)
        ensures
            set == self.spec_version(),
    {
        self.version
    }

    /// Whether the connected devices are to be listed.
    #[verifier::when_used_as_spec(spec_search)]
    pub fn search(&self) -> (set: bool)
        ensures
            set == self.spec_search(),
    {
        self.search
    }

    /// The devices to start.
    pub fn device(&self) -> (ids: &[uuid::Uuid])
        ensures
            ids@ == self.spec_device(),
    {
        self.device.as_slice()
    }

    /// Whether to print more.
    #[verifier::when_used_as_spec(spec_verbose)]
    pub fn verbose(&self) -> (set: bool)
        ensures
            set == self.spec_verbose(),
    {
        self.verbose
    }

    /// The file to save the data in.
    pub fn output(&self) -> (path: Option<&std::path::PathBuf>)
        ensures
            path.is_some() == self.spec_output().is_some(),
            path matches Some(p) ==> *p == self.spec_output()->0,
    {
        self.output.as_ref()
    }

    /// Whether the file is to be JSON.
    #[verifier::when_used_as_spec(spec_json)]
    pub fn json(&self) -> (set: bool)
        ensures
            set == self.spec_json(),
    {
        self.json
    }

    /// Whether the websocket is to be started.
    #[verifier::when_used_as_spec(spec_websocket)]
    pub fn websocket(&self) -> (set: bool)
        ensures
            set == self.spec_websocket(),
    {
        self.websocket
    }

    /// The port of the websocket.
    #[verifier::when_used_as_spec(spec_port)]
    pub fn port(&self) -> (port: u16)
        ensures
            port == self.spec_port(),
    {
        self.port
    }
}

impl Default for Options {
    /// Nothing asked for, no device, no file, port 0.
    fn default() -> (options: Options)
        ensures
            !options.version(),
            !options.search(),
            options.spec_device() == Seq::<uuid::Uuid>::empty(),
            !options.verbose(),
            options.spec_output() is None,
            !options.json(),
            !options.websocket(),
            options.port() == 0,
    {
        Options {
            version: false,
            search: false,
            device: Vec::new(),
            verbose: false,
            output: None,
            json: false,
            websocket: false,
            port: 0,
        }
    }
}

} // verus!
