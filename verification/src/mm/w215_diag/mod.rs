//! Provenance of page frames and page-table entries, to find who corrupts memory.
//!
//! Nothing here changes what the kernel does: each part notes events in a table of fixed
//! size, and a fault handler asks for what is on record.
pub mod band;
pub mod cache_prov;
pub mod laws;
pub mod preins;
pub mod probe;
pub mod prov;
pub mod pte;
pub mod shadow;

pub use crate::mm::w215_diag::band::{
    band_check_free, band_counts, band_double_install_count, band_install_record,
    band_stale_tlb_count, band_unmap_record, in_band, Band, DoubleInstall, StaleTlb,
};
pub use crate::mm::w215_diag::cache_prov::{
    cache_band_resident_count, cache_clobber_count, cache_prov_band_selftest, cache_prov_counts,
    cache_prov_fault_bucket_a, cache_prov_init, cache_prov_install, cache_prov_reclaim,
    cache_prov_validated_count, cache_prov_write, cache_refdec_reuse_count, CacheProv,
};
pub use crate::mm::w215_diag::preins::{
    install_race_count, op_str, preins_check_install, preins_check_op, preins_clear_on_insert,
    preins_register, window_race_count, Filled, Preins,
};
pub use crate::mm::w215_diag::probe::{counts, probe, Probes, Writer};
pub use crate::mm::w215_diag::prov::{
    dump_prov_for_phys, kind_str, pack_cache_key, prov_record, prov_record_free,
    prov_ring_overflow_count, top_traced_physes, ProvEntry, ProvTable,
};
pub use crate::mm::w215_diag::pte::{
    dump_pte_change_for_va, pte_change_displaced_count, pte_change_record,
    pte_change_recorded_count, PteRing,
};
pub use crate::mm::w215_diag::shadow::{
    alloc_shadow_displaced_count, alloc_shadow_lookup, alloc_shadow_record,
    alloc_shadow_recorded_count, dump_alloc_shadow_for_phys, dump_band_frame_prov,
    dump_free_shadow_for_phys, free_shadow_displaced_count, free_shadow_lookup, free_shadow_record,
    free_shadow_recorded_count, Shadow,
};
