//! A thin front to the process logger.
use vstd::prelude::*;

verus! {

#[verifier::external_type_specification]
#[verifier::external_body]
pub struct ExArguments<'a>(std::fmt::Arguments<'a>);

/// Severity of a message handed to the process logger.
#[derive(Clone, Copy, Debug, PartialEq, Eq, Structural)]
pub enum LogLevel {
    Info,
    Warn,
    Error,
}

/// Destination of formatted messages at one severity.
struct LogSink {
    level: LogLevel,
}

impl LogSink {
    /// Relies on log::logger and log::Log::log: the formatted message is
    /// handed, at this sink's severity and as coming from this module, to the
    /// logger the process installed.
    #[verifier::external_body]
    fn write_fmt(&mut self, args: std::fmt::Arguments) {
        let level = match self.level {
            LogLevel::Info => log::Level::Info,
            LogLevel::Warn => log::Level::Warn,
            LogLevel::Error => log::Level::Error,
        };
        let mut record = log::Record::builder();
        record.level(level).target("docueyes::logg").module_path_static(Some("docueyes::logg"));
        log::logger().log(&record.file_static(Some("src/logg.rs")).args(args).build());
    }

    /// Relies on std's write!: `msg` reaches `write_fmt` unchanged.
    #[verifier::external_body]
    fn emit(&mut self, msg: &str) {
        write!(self, "{}", msg)
    }
}

/// Logging at the three severities the service uses.
pub struct Logg;

impl Logg {
    /// Logs `msg` as information.
    pub fn info(msg: String) {
        let mut sink = LogSink { level: LogLevel::Info };
        sink.emit(msg.as_str());
    }

    /// Logs `msg` as an error.
    pub fn error(msg: String) {
        let mut sink = LogSink { level: LogLevel::Error };
        sink.emit(msg.as_str());
    }

    /// Logs `msg` as a warning.
    pub fn warn(msg: String) {
        let mut sink = LogSink { level: LogLevel::Warn };
        sink.emit(msg.as_str());
    }
}

} // verus!
