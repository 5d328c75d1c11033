use vstd::prelude::*;

verus! {

/// The options a run of the program was invoked with. The surrounding shell
/// parses the command line and hands the choices over as plain values.
pub struct Config {
    import_otp: bool,
    import_binary: bool,
    statistics: bool,
    input_file: Option<String>,
    output_file: Option<String>,
}

impl Config {
    pub closed spec fn import_otp_spec(&self) -> bool {
        self.import_otp
    }

    pub closed spec fn import_binary_spec(&self) -> bool {
        self.import_binary
    }

    pub closed spec fn statistics_spec(&self) -> bool {
        self.statistics
    }

    pub closed spec fn input_file_spec(&self) -> Option<Seq<char>> {
        self.input_file.deep_view()
    }

    pub closed spec fn output_file_spec(&self) -> Option<Seq<char>> {
        self.output_file.deep_view()
    }

    pub fn new(
        import_otp: bool,
        import_binary: bool,
        statistics: bool,
        input_file: Option<String>,
        output_file: Option<String>,
    ) -> (config: Self)
        ensures
            config.import_otp_spec() == import_otp,
            config.import_binary_spec() == import_binary,
            config.statistics_spec() == statistics,
            config.input_file_spec() == input_file.deep_view(),
            config.output_file_spec() == output_file.deep_view(),
    {
        Config { import_otp, import_binary, statistics, input_file, output_file }
    }

    /// Whether entropy is to be imported into the store.
    pub fn import_otp(&self) -> (flag: bool)
        ensures
            flag == self.import_otp_spec(),
    {
        self.import_otp
    }

    /// Whether the import file is binary rather than hex text.
    pub fn import_binary(&self) -> (flag: bool)
        ensures
            flag == self.import_binary_spec(),
    {
        self.import_binary
    }

    /// Whether store statistics were requested.
    pub fn statistics(&self) -> (flag: bool)
        ensures
            flag == self.statistics_spec(),
    {
        self.statistics
    }

    /// The input file name, when one was given.
    pub fn input_file(&self) -> (name: Option<&String>)
        ensures
            name is Some <==> self.input_file_spec() is Some,
            name matches Some(n) ==> self.input_file_spec() == Some(n@),
    {
        self.input_file.as_ref()
    }

    /// The output file name, when one was given.
    pub fn output_file(&self) -> (name: Option<&String>)
        ensures
            name is Some <==> self.output_file_spec() is Some,
            name matches Some(n) ==> self.output_file_spec() == Some(n@),
    {
        self.output_file.as_ref()
    }
}

} // verus!
