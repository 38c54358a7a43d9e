//! The guest register file and the names of the registers in it.

use vstd::prelude::*;

verus! {

/// A register of the guest VM context.
#[derive(Clone, Copy, PartialEq, Eq, Structural, Debug)]
pub enum Register {
    Rax,
    Rbx,
    Rcx,
    Rdx,
    Rsi,
    Rdi,
    Rsp,
    Rbp,
    R8,
    R9,
    R10,
    R11,
    R12,
    R13,
    R14,
    R15,
    Rip,
    Rflags,
    Cs,
    CsLimit,
    CsAccessRights,
    CsBase,
    Ds,
    DsLimit,
    DsAccessRights,
    DsBase,
    Es,
    EsLimit,
    EsAccessRights,
    EsBase,
    Fs,
    FsLimit,
    FsAccessRights,
    FsBase,
    Gs,
    GsLimit,
    GsAccessRights,
    GsBase,
    Ss,
    SsLimit,
    SsAccessRights,
    SsBase,
    Ldtr,
    LdtrLimit,
    LdtrAccessRights,
    LdtrBase,
    Tr,
    TrLimit,
    TrAccessRights,
    TrBase,
    GdtrLimit,
    GdtrBase,
    IdtrLimit,
    IdtrBase,
    Cr0,
    Cr2,
    Cr3,
    Cr4,
    Cr8,
    KernelGsBase,
    CStar,
    LStar,
    FMask,
    Star,
    SysenterCs,
    SysenterEsp,
    SysenterEip,
    Efer,
    Dr7,
    PmlIndex,
}

/// The complete guest register state carried by a snapshot and by each VM.
#[derive(Clone, Copy, PartialEq, Eq, Structural, Debug)]
pub struct RegisterFile {
    pub rax: u64,
    pub rbx: u64,
    pub rcx: u64,
    pub rdx: u64,
    pub rsi: u64,
    pub rdi: u64,
    pub rsp: u64,
    pub rbp: u64,
    pub r8: u64,
    pub r9: u64,
    pub r10: u64,
    pub r11: u64,
    pub r12: u64,
    pub r13: u64,
    pub r14: u64,
    pub r15: u64,
    pub rip: u64,
    pub rflags: u64,
    pub cs: u64,
    pub cs_limit: u64,
    pub cs_ar: u64,
    pub cs_base: u64,
    pub ds: u64,
    pub ds_limit: u64,
    pub ds_ar: u64,
    pub ds_base: u64,
    pub es: u64,
    pub es_limit: u64,
    pub es_ar: u64,
    pub es_base: u64,
    pub fs: u64,
    pub fs_limit: u64,
    pub fs_ar: u64,
    pub fs_base: u64,
    pub gs: u64,
    pub gs_limit: u64,
    pub gs_ar: u64,
    pub gs_base: u64,
    pub ss: u64,
    pub ss_limit: u64,
    pub ss_ar: u64,
    pub ss_base: u64,
    pub ldtr: u64,
    pub ldtr_limit: u64,
    pub ldtr_ar: u64,
    pub ldtr_base: u64,
    pub tr: u64,
    pub tr_limit: u64,
    pub tr_ar: u64,
    pub tr_base: u64,
    pub gdtr_limit: u64,
    pub gdtr_base: u64,
    pub idtr_limit: u64,
    pub idtr_base: u64,
    pub cr0: u64,
    pub cr2: u64,
    pub cr3: u64,
    pub cr4: u64,
    pub cr8: u64,
    pub kernel_gs_base: u64,
    pub cstar: u64,
    pub lstar: u64,
    pub fmask: u64,
    pub star: u64,
    pub sysenter_cs: u64,
    pub sysenter_esp: u64,
    pub sysenter_eip: u64,
    pub efer: u64,
    pub dr7: u64,
    pub pml_index: u64,
}

impl RegisterFile {
    /// The register file a fresh VM starts with: everything zero except the
    /// page-modification-log index, which starts at the top of the log.
    pub open spec fn spec_new() -> RegisterFile {
        RegisterFile {
            rax: 0,
            rbx: 0,
            rcx: 0,
            rdx: 0,
            rsi: 0,
            rdi: 0,
            rsp: 0,
            rbp: 0,
            r8: 0,
            r9: 0,
            r10: 0,
            r11: 0,
            r12: 0,
            r13: 0,
            r14: 0,
            r15: 0,
            rip: 0,
            rflags: 0,
            cs: 0,
            cs_limit: 0,
            cs_ar: 0,
            cs_base: 0,
            ds: 0,
            ds_limit: 0,
            ds_ar: 0,
            ds_base: 0,
            es: 0,
            es_limit: 0,
            es_ar: 0,
            es_base: 0,
            fs: 0,
            fs_limit: 0,
            fs_ar: 0,
            fs_base: 0,
            gs: 0,
            gs_limit: 0,
            gs_ar: 0,
            gs_base: 0,
            ss: 0,
            ss_limit: 0,
            ss_ar: 0,
            ss_base: 0,
            ldtr: 0,
            ldtr_limit: 0,
            ldtr_ar: 0,
            ldtr_base: 0,
            tr: 0,
            tr_limit: 0,
            tr_ar: 0,
            tr_base: 0,
            gdtr_limit: 0,
            gdtr_base: 0,
            idtr_limit: 0,
            idtr_base: 0,
            cr0: 0,
            cr2: 0,
            cr3: 0,
            cr4: 0,
            cr8: 0,
            kernel_gs_base: 0,
            cstar: 0,
            lstar: 0,
            fmask: 0,
            star: 0,
            sysenter_cs: 0,
            sysenter_esp: 0,
            sysenter_eip: 0,
            efer: 0,
            dr7: 0,
            pml_index: 511,
        }
    }

    /// Build the register file of a fresh VM.
    pub fn new() -> (r: RegisterFile)
        ensures
            r == RegisterFile::spec_new(),
    {
        RegisterFile {
            rax: 0,
            rbx: 0,
            rcx: 0,
            rdx: 0,
            rsi: 0,
            rdi: 0,
            rsp: 0,
            rbp: 0,
            r8: 0,
            r9: 0,
            r10: 0,
            r11: 0,
            r12: 0,
            r13: 0,
            r14: 0,
            r15: 0,
            rip: 0,
            rflags: 0,
            cs: 0,
            cs_limit: 0,
            cs_ar: 0,
            cs_base: 0,
            ds: 0,
            ds_limit: 0,
            ds_ar: 0,
            ds_base: 0,
            es: 0,
            es_limit: 0,
            es_ar: 0,
            es_base: 0,
            fs: 0,
            fs_limit: 0,
            fs_ar: 0,
            fs_base: 0,
            gs: 0,
            gs_limit: 0,
            gs_ar: 0,
            gs_base: 0,
            ss: 0,
            ss_limit: 0,
            ss_ar: 0,
            ss_base: 0,
            ldtr: 0,
            ldtr_limit: 0,
            ldtr_ar: 0,
            ldtr_base: 0,
            tr: 0,
            tr_limit: 0,
            tr_ar: 0,
            tr_base: 0,
            gdtr_limit: 0,
            gdtr_base: 0,
            idtr_limit: 0,
            idtr_base: 0,
            cr0: 0,
            cr2: 0,
            cr3: 0,
            cr4: 0,
            cr8: 0,
            kernel_gs_base: 0,
            cstar: 0,
            lstar: 0,
            fmask: 0,
            star: 0,
            sysenter_cs: 0,
            sysenter_esp: 0,
            sysenter_eip: 0,
            efer: 0,
            dr7: 0,
            pml_index: 511,
        }
    }

    /// The value of register `reg`.
    pub open spec fn spec_get(self, reg: Register) -> u64 {
        match reg {
            Register::Rax => self.rax,
            Register::Rbx => self.rbx,
            Register::Rcx => self.rcx,
            Register::Rdx => self.rdx,
            Register::Rsi => self.rsi,
            Register::Rdi => self.rdi,
            Register::Rsp => self.rsp,
            Register::Rbp => self.rbp,
            Register::R8 => self.r8,
            Register::R9 => self.r9,
            Register::R10 => self.r10,
            Register::R11 => self.r11,
            Register::R12 => self.r12,
            Register::R13 => self.r13,
            Register::R14 => self.r14,
            Register::R15 => self.r15,
            Register::Rip => self.rip,
            Register::Rflags => self.rflags,
            Register::Cs => self.cs,
            Register::CsLimit => self.cs_limit,
            Register::CsAccessRights => self.cs_ar,
            Register::CsBase => self.cs_base,
            Register::Ds => self.ds,
            Register::DsLimit => self.ds_limit,
            Register::DsAccessRights => self.ds_ar,
            Register::DsBase => self.ds_base,
            Register::Es => self.es,
            Register::EsLimit => self.es_limit,
            Register::EsAccessRights => self.es_ar,
            Register::EsBase => self.es_base,
            Register::Fs => self.fs,
            Register::FsLimit => self.fs_limit,
            Register::FsAccessRights => self.fs_ar,
            Register::FsBase => self.fs_base,
            Register::Gs => self.gs,
            Register::GsLimit => self.gs_limit,
            Register::GsAccessRights => self.gs_ar,
            Register::GsBase => self.gs_base,
            Register::Ss => self.ss,
            Register::SsLimit => self.ss_limit,
            Register::SsAccessRights => self.ss_ar,
            Register::SsBase => self.ss_base,
            Register::Ldtr => self.ldtr,
            Register::LdtrLimit => self.ldtr_limit,
            Register::LdtrAccessRights => self.ldtr_ar,
            Register::LdtrBase => self.ldtr_base,
            Register::Tr => self.tr,
            Register::TrLimit => self.tr_limit,
            Register::TrAccessRights => self.tr_ar,
            Register::TrBase => self.tr_base,
            Register::GdtrLimit => self.gdtr_limit,
            Register::GdtrBase => self.gdtr_base,
            Register::IdtrLimit => self.idtr_limit,
            Register::IdtrBase => self.idtr_base,
            Register::Cr0 => self.cr0,
            Register::Cr2 => self.cr2,
            Register::Cr3 => self.cr3,
            Register::Cr4 => self.cr4,
            Register::Cr8 => self.cr8,
            Register::KernelGsBase => self.kernel_gs_base,
            Register::CStar => self.cstar,
            Register::LStar => self.lstar,
            Register::FMask => self.fmask,
            Register::Star => self.star,
            Register::SysenterCs => self.sysenter_cs,
            Register::SysenterEsp => self.sysenter_esp,
            Register::SysenterEip => self.sysenter_eip,
            Register::Efer => self.efer,
            Register::Dr7 => self.dr7,
            Register::PmlIndex => self.pml_index,
        }
    }

    /// `self` with register `reg` set to `val`.
    pub open spec fn spec_set(self, reg: Register, val: u64) -> RegisterFile {
        match reg {
            Register::Rax => RegisterFile { rax: val, ..self },
            Register::Rbx => RegisterFile { rbx: val, ..self },
            Register::Rcx => RegisterFile { rcx: val, ..self },
            Register::Rdx => RegisterFile { rdx: val, ..self },
            Register::Rsi => RegisterFile { rsi: val, ..self },
            Register::Rdi => RegisterFile { rdi: val, ..self },
            Register::Rsp => RegisterFile { rsp: val, ..self },
            Register::Rbp => RegisterFile { rbp: val, ..self },
            Register::R8 => RegisterFile { r8: val, ..self },
            Register::R9 => RegisterFile { r9: val, ..self },
            Register::R10 => RegisterFile { r10: val, ..self },
            Register::R11 => RegisterFile { r11: val, ..self },
            Register::R12 => RegisterFile { r12: val, ..self },
            Register::R13 => RegisterFile { r13: val, ..self },
            Register::R14 => RegisterFile { r14: val, ..self },
            Register::R15 => RegisterFile { r15: val, ..self },
            Register::Rip => RegisterFile { rip: val, ..self },
            Register::Rflags => RegisterFile { rflags: val, ..self },
            Register::Cs => RegisterFile { cs: val, ..self },
            Register::CsLimit => RegisterFile { cs_limit: val, ..self },
            Register::CsAccessRights => RegisterFile { cs_ar: val, ..self },
            Register::CsBase => RegisterFile { cs_base: val, ..self },
            Register::Ds => RegisterFile { ds: val, ..self },
            Register::DsLimit => RegisterFile { ds_limit: val, ..self },
            Register::DsAccessRights => RegisterFile { ds_ar: val, ..self },
            Register::DsBase => RegisterFile { ds_base: val, ..self },
            Register::Es => RegisterFile { es: val, ..self },
            Register::EsLimit => RegisterFile { es_limit: val, ..self },
            Register::EsAccessRights => RegisterFile { es_ar: val, ..self },
            Register::EsBase => RegisterFile { es_base: val, ..self },
            Register::Fs => RegisterFile { fs: val, ..self },
            Register::FsLimit => RegisterFile { fs_limit: val, ..self },
            Register::FsAccessRights => RegisterFile { fs_ar: val, ..self },
            Register::FsBase => RegisterFile { fs_base: val, ..self },
            Register::Gs => RegisterFile { gs: val, ..self },
            Register::GsLimit => RegisterFile { gs_limit: val, ..self },
            Register::GsAccessRights => RegisterFile { gs_ar: val, ..self },
            Register::GsBase => RegisterFile { gs_base: val, ..self },
            Register::Ss => RegisterFile { ss: val, ..self },
            Register::SsLimit => RegisterFile { ss_limit: val, ..self },
            Register::SsAccessRights => RegisterFile { ss_ar: val, ..self },
            Register::SsBase => RegisterFile { ss_base: val, ..self },
            Register::Ldtr => RegisterFile { ldtr: val, ..self },
            Register::LdtrLimit => RegisterFile { ldtr_limit: val, ..self },
            Register::LdtrAccessRights => RegisterFile { ldtr_ar: val, ..self },
            Register::LdtrBase => RegisterFile { ldtr_base: val, ..self },
            Register::Tr => RegisterFile { tr: val, ..self },
            Register::TrLimit => RegisterFile { tr_limit: val, ..self },
            Register::TrAccessRights => RegisterFile { tr_ar: val, ..self },
            Register::TrBase => RegisterFile { tr_base: val, ..self },
            Register::GdtrLimit => RegisterFile { gdtr_limit: val, ..self },
            Register::GdtrBase => RegisterFile { gdtr_base: val, ..self },
            Register::IdtrLimit => RegisterFile { idtr_limit: val, ..self },
            Register::IdtrBase => RegisterFile { idtr_base: val, ..self },
            Register::Cr0 => RegisterFile { cr0: val, ..self },
            Register::Cr2 => RegisterFile { cr2: val, ..self },
            Register::Cr3 => RegisterFile { cr3: val, ..self },
            Register::Cr4 => RegisterFile { cr4: val, ..self },
            Register::Cr8 => RegisterFile { cr8: val, ..self },
            Register::KernelGsBase => RegisterFile { kernel_gs_base: val, ..self },
            Register::CStar => RegisterFile { cstar: val, ..self },
            Register::LStar => RegisterFile { lstar: val, ..self },
            Register::FMask => RegisterFile { fmask: val, ..self },
            Register::Star => RegisterFile { star: val, ..self },
            Register::SysenterCs => RegisterFile { sysenter_cs: val, ..self },
            Register::SysenterEsp => RegisterFile { sysenter_esp: val, ..self },
            Register::SysenterEip => RegisterFile { sysenter_eip: val, ..self },
            Register::Efer => RegisterFile { efer: val, ..self },
            Register::Dr7 => RegisterFile { dr7: val, ..self },
            Register::PmlIndex => RegisterFile { pml_index: val, ..self },
        }
    }

    /// Read register `reg`.
    pub fn get(&self, reg: Register) -> (r: u64)
        ensures
            r == self.spec_get(reg),
    {
        match reg {
            Register::Rax => self.rax,
            Register::Rbx => self.rbx,
            Register::Rcx => self.rcx,
            Register::Rdx => self.rdx,
            Register::Rsi => self.rsi,
            Register::Rdi => self.rdi,
            Register::Rsp => self.rsp,
            Register::Rbp => self.rbp,
            Register::R8 => self.r8,
            Register::R9 => self.r9,
            Register::R10 => self.r10,
            Register::R11 => self.r11,
            Register::R12 => self.r12,
            Register::R13 => self.r13,
            Register::R14 => self.r14,
            Register::R15 => self.r15,
            Register::Rip => self.rip,
            Register::Rflags => self.rflags,
            Register::Cs => self.cs,
            Register::CsLimit => self.cs_limit,
            Register::CsAccessRights => self.cs_ar,
            Register::CsBase => self.cs_base,
            Register::Ds => self.ds,
            Register::DsLimit => self.ds_limit,
            Register::DsAccessRights => self.ds_ar,
            Register::DsBase => self.ds_base,
            Register::Es => self.es,
            Register::EsLimit => self.es_limit,
            Register::EsAccessRights => self.es_ar,
            Register::EsBase => self.es_base,
            Register::Fs => self.fs,
            Register::FsLimit => self.fs_limit,
            Register::FsAccessRights => self.fs_ar,
            Register::FsBase => self.fs_base,
            Register::Gs => self.gs,
            Register::GsLimit => self.gs_limit,
            Register::GsAccessRights => self.gs_ar,
            Register::GsBase => self.gs_base,
            Register::Ss => self.ss,
            Register::SsLimit => self.ss_limit,
            Register::SsAccessRights => self.ss_ar,
            Register::SsBase => self.ss_base,
            Register::Ldtr => self.ldtr,
            Register::LdtrLimit => self.ldtr_limit,
            Register::LdtrAccessRights => self.ldtr_ar,
            Register::LdtrBase => self.ldtr_base,
            Register::Tr => self.tr,
            Register::TrLimit => self.tr_limit,
            Register::TrAccessRights => self.tr_ar,
            Register::TrBase => self.tr_base,
            Register::GdtrLimit => self.gdtr_limit,
            Register::GdtrBase => self.gdtr_base,
            Register::IdtrLimit => self.idtr_limit,
            Register::IdtrBase => self.idtr_base,
            Register::Cr0 => self.cr0,
            Register::Cr2 => self.cr2,
            Register::Cr3 => self.cr3,
            Register::Cr4 => self.cr4,
            Register::Cr8 => self.cr8,
            Register::KernelGsBase => self.kernel_gs_base,
            Register::CStar => self.cstar,
            Register::LStar => self.lstar,
            Register::FMask => self.fmask,
            Register::Star => self.star,
            Register::SysenterCs => self.sysenter_cs,
            Register::SysenterEsp => self.sysenter_esp,
            Register::SysenterEip => self.sysenter_eip,
            Register::Efer => self.efer,
            Register::Dr7 => self.dr7,
            Register::PmlIndex => self.pml_index,
        }
    }

    /// Write `val` to register `reg`.
    pub fn set(&mut self, reg: Register, val: u64)
        ensures
            *final(self) == old(self).spec_set(reg, val),
    {
        match reg {
            Register::Rax => { self.rax = val; }
            Register::Rbx => { self.rbx = val; }
            Register::Rcx => { self.rcx = val; }
            Register::Rdx => { self.rdx = val; }
            Register::Rsi => { self.rsi = val; }
            Register::Rdi => { self.rdi = val; }
            Register::Rsp => { self.rsp = val; }
            Register::Rbp => { self.rbp = val; }
            Register::R8 => { self.r8 = val; }
            Register::R9 => { self.r9 = val; }
            Register::R10 => { self.r10 = val; }
            Register::R11 => { self.r11 = val; }
            Register::R12 => { self.r12 = val; }
            Register::R13 => { self.r13 = val; }
            Register::R14 => { self.r14 = val; }
            Register::R15 => { self.r15 = val; }
            Register::Rip => { self.rip = val; }
            Register::Rflags => { self.rflags = val; }
            Register::Cs => { self.cs = val; }
            Register::CsLimit => { self.cs_limit = val; }
            Register::CsAccessRights => { self.cs_ar = val; }
            Register::CsBase => { self.cs_base = val; }
            Register::Ds => { self.ds = val; }
            Register::DsLimit => { self.ds_limit = val; }
            Register::DsAccessRights => { self.ds_ar = val; }
            Register::DsBase => { self.ds_base = val; }
            Register::Es => { self.es = val; }
            Register::EsLimit => { self.es_limit = val; }
            Register::EsAccessRights => { self.es_ar = val; }
            Register::EsBase => { self.es_base = val; }
            Register::Fs => { self.fs = val; }
            Register::FsLimit => { self.fs_limit = val; }
            Register::FsAccessRights => { self.fs_ar = val; }
            Register::FsBase => { self.fs_base = val; }
            Register::Gs => { self.gs = val; }
            Register::GsLimit => { self.gs_limit = val; }
            Register::GsAccessRights => { self.gs_ar = val; }
            Register::GsBase => { self.gs_base = val; }
            Register::Ss => { self.ss = val; }
            Register::SsLimit => { self.ss_limit = val; }
            Register::SsAccessRights => { self.ss_ar = val; }
            Register::SsBase => { self.ss_base = val; }
            Register::Ldtr => { self.ldtr = val; }
            Register::LdtrLimit => { self.ldtr_limit = val; }
            Register::LdtrAccessRights => { self.ldtr_ar = val; }
            Register::LdtrBase => { self.ldtr_base = val; }
            Register::Tr => { self.tr = val; }
            Register::TrLimit => { self.tr_limit = val; }
            Register::TrAccessRights => { self.tr_ar = val; }
            Register::TrBase => { self.tr_base = val; }
            Register::GdtrLimit => { self.gdtr_limit = val; }
            Register::GdtrBase => { self.gdtr_base = val; }
            Register::IdtrLimit => { self.idtr_limit = val; }
            Register::IdtrBase => { self.idtr_base = val; }
            Register::Cr0 => { self.cr0 = val; }
            Register::Cr2 => { self.cr2 = val; }
            Register::Cr3 => { self.cr3 = val; }
            Register::Cr4 => { self.cr4 = val; }
            Register::Cr8 => { self.cr8 = val; }
            Register::KernelGsBase => { self.kernel_gs_base = val; }
            Register::CStar => { self.cstar = val; }
            Register::LStar => { self.lstar = val; }
            Register::FMask => { self.fmask = val; }
            Register::Star => { self.star = val; }
            Register::SysenterCs => { self.sysenter_cs = val; }
            Register::SysenterEsp => { self.sysenter_esp = val; }
            Register::SysenterEip => { self.sysenter_eip = val; }
            Register::Efer => { self.efer = val; }
            Register::Dr7 => { self.dr7 = val; }
            Register::PmlIndex => { self.pml_index = val; }
        }
    }
}

} // verus!
