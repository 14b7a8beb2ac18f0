//! The virtual machine: configuration, CPU, memory and execution.

pub mod cpu;
pub mod decoder;
pub mod globals;
pub mod stack;
pub mod trace;
pub mod traps;

use vstd::prelude::*;
use crate::error::Result;
use self::cpu::{Cpu, CpuState, ExecStatus, run_answer, spec_run, step_budget};

verus! {

#[derive(Debug)]
pub struct VmConfig {
    pub stack_size: usize,
    pub globals_size: usize,
    pub enable_tracing: bool,
}

impl Default for VmConfig {
    fn default() -> (c: Self)
        ensures
            c.stack_size == 1024,
            c.globals_size == 256,
            c.enable_tracing == false,
    {
        VmConfig { stack_size: 1024, globals_size: 256, enable_tracing: false }
    }
}

/// A configured machine: the configuration it was built with and its CPU.
#[derive(Debug)]
pub struct Vm {
    config: VmConfig,
    cpu: Cpu,
}

impl Vm {
    /// The CPU of the machine.
    pub closed spec fn the_cpu(&self) -> Cpu {
        self.cpu
    }

    /// The configuration the machine was built with.
    pub closed spec fn the_config(&self) -> VmConfig {
        self.config
    }

    pub fn new(config: VmConfig) -> (vm: Self)
        ensures
            vm.the_cpu().state() == (CpuState {
                registers: Seq::new(cpu::NUM_REGISTERS as nat, |_i: int| 0i64),
                pc: 0,
                sp: 0,
                running: false,
                stack: Seq::empty(),
                capacity: config.stack_size,
                globals: Seq::new(config.globals_size as nat, |_i: int| 0i64),
            }),
            vm.the_config() == config,
    {
        let cpu = Cpu::new(config.stack_size, config.globals_size);
        Vm { config, cpu }
    }

    /// Runs `bytecode` (the instruction stream, without header) from address 0.
    /// Tracing banners, when the configuration asks for them, are the caller's to print.
    pub fn execute(&mut self, bytecode: &[u8]) -> (r: Result<ExecStatus>)
        ensures
            final(self).the_config() == old(self).the_config(),
            ({
                let start = CpuState { running: true, pc: 0, ..old(self).the_cpu().state() };
                let (st, end) = spec_run(start, bytecode@, step_budget());
                final(self).the_cpu().state() == st && run_answer(end, r)
            }),
    {
        self.cpu.run(bytecode)
    }

    /// Continues running `bytecode` after a system trap.
    pub fn resume(&mut self, bytecode: &[u8]) -> (r: Result<ExecStatus>)
        ensures
            final(self).the_config() == old(self).the_config(),
            ({
                let (st, end) = spec_run(old(self).the_cpu().state(), bytecode@, step_budget());
                final(self).the_cpu().state() == st && run_answer(end, r)
            }),
    {
        self.cpu.resume(bytecode)
    }

    pub fn cpu(&self) -> (c: &Cpu)
        ensures
            *c == self.the_cpu(),
    {
        &self.cpu
    }

    pub fn cpu_mut(&mut self) -> (c: &mut Cpu)
        ensures
            *c == old(self).the_cpu(),
            final(self).the_cpu() == *final(c),
            final(self).the_config() == old(self).the_config(),
    {
        &mut self.cpu
    }
}

} // verus!
