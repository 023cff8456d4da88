//! The settings of the compiler that turns Gremlin jobs into dataflows.
use vstd::prelude::*;

verus! {

/// Generates the functions of the steps of a job.
pub struct FnGenerator {}

impl FnGenerator {
    pub fn new() -> (generator: Self)
        ensures
            generator == (FnGenerator {}),
    {
        FnGenerator {}
    }
}

/// Compiles Gremlin jobs for one of `num_servers` servers, the one of index `server_index`,
/// with a partitioner that tells which server holds which data.
pub struct GremlinJobCompiler<P> {
    partitioner: P,
    udf_gen: FnGenerator,
    num_servers: usize,
    server_index: u64,
}

impl<P> GremlinJobCompiler<P> {
    /// The number of servers.
    pub closed spec fn spec_num_servers(&self) -> usize {
        self.num_servers
    }

    /// The index of this server.
    pub closed spec fn spec_server_index(&self) -> u64 {
        self.server_index
    }

    /// The partitioner.
    pub closed spec fn spec_partitioner(&self) -> P {
        self.partitioner
    }

    pub fn new(partitioner: P, num_servers: usize, server_index: u64) -> (compiler: Self)
        ensures
            compiler.spec_partitioner() == partitioner,
            compiler.spec_num_servers() == num_servers,
            compiler.spec_server_index() == server_index,
    {
        GremlinJobCompiler { partitioner, udf_gen: FnGenerator::new(), num_servers, server_index }
    }

    pub fn get_num_servers(&self) -> (n: usize)
        ensures
            n == self.spec_num_servers(),
    {
        self.num_servers
    }

    pub fn get_server_index(&self) -> (i: u64)
        ensures
            i == self.spec_server_index(),
    {
        self.server_index
    }
}

} // verus!
