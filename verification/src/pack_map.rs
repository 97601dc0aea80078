//! From the bytes of a map to its archive or its resource list.
use crate::archive::{readable, zip_contents};
use crate::bsp::{bsp_complaint, check_textures_addressable, lump_at, lump_text, parse_bsp};
use crate::bsp::{texture_scan, textures_addressable, BspInfo, TextureScan, ENTITY_LUMP, TEXTURE_LUMP};
use crate::clock::{is_stamp, is_time, some_time_fails};
use crate::collect::{collect_resources, collected};
use crate::entities::{entities_of, entity_maps, parse_entities, Entity, EntityMap};
use crate::list::{list_text, needed, write_resource_list, Names, ResourceList};
use crate::pack::{can_be_archived, check_names, distinct_names, names_fit, packs_res};
use crate::pack::{plan_reports, sources, write_zip, PackError, Packed};
use crate::paths::{Queue, QueueMap};
use crate::plan::MapPlan;
use crate::server::{server_view, Server, ServerMap};
use crate::table::{listing, StringTable};
use crate::text::texts;
use vstd::prelude::*;

verus! {

/// What is made of a map.
pub enum Output {
    /// A list of its resources.
    List(ResourceList),
    /// An archive of the map and its resources.
    Archive(Packed),
}

/// Why nothing could be made of a map.
#[derive(Debug)]
pub enum MapError {
    /// Its file cannot be read; the text says why.
    Bsp(String),
    /// It has a texture at an offset that no address can be computed from.
    TextureOffset,
    /// A name is too long for an archive.
    LongName,
    /// The list or the archive cannot be written.
    Output(PackError),
}

/// Whether a texture of the map is kept outside its file.
pub open spec fn external_textures(data: Seq<u8>) -> bool {
    texture_scan(data, lump_at(data, TEXTURE_LUMP as int)) == TextureScan::External
}

/// The entities of the map.
pub open spec fn map_entities(data: Seq<u8>) -> Seq<EntityMap> {
    entities_of(lump_text(data, lump_at(data, ENTITY_LUMP as int)))
}

/// The resources of the map.
pub open spec fn map_resources(
    data: Seq<u8>,
    mapname: Seq<char>,
    server: Option<ServerMap>,
    dirs: Seq<Seq<char>>,
) -> QueueMap {
    collected(
        Map::empty(),
        data,
        external_textures(data),
        map_entities(data),
        mapname,
        server,
        dirs,
    )
}

/// The server that the resources of the map are taken from, if any.
pub open spec fn server_of(plan: MapPlan, server: &Server) -> Option<ServerMap> {
    if plan.loose {
        None
    } else {
        Some(server@)
    }
}

/// The resources of the map with the bytes `bsp_data`, as `parse_bsp` and
/// `parse_entities` have read them.
pub fn resources_of(
    bsp_data: &[u8],
    info: &BspInfo,
    entities: &Vec<Entity>,
    mapname: &str,
    server: Option<&Server>,
    search_dirs: &Vec<String>,
) -> (r: Queue)
    ensures
        r@ == collected(
            Map::empty(),
            bsp_data@,
            info.has_external_tex,
            entity_maps(entities@),
            mapname@,
            server_view(server),
            texts(search_dirs@),
        ),
{
    let mut queue: Queue = StringTable::new();
    collect_resources(bsp_data, info, entities, mapname, server, search_dirs, &mut queue);
    queue
}

/// Makes what is asked for of the map with the bytes `bsp_data`: a resource list,
/// where one is asked for or the map is not inside a server, and otherwise an
/// archive. What becomes of each resource in the archive is added to `log`. Before
/// the file is read, and before the archive is begun, it is tested that this can
/// be done.
pub fn pack_bsp(
    bsp_data: &[u8],
    mapname: &str,
    plan: &MapPlan,
    res_only: bool,
    vanilla: &Names,
    server: &Server,
    log: &mut Vec<String>,
) -> (r: Result<Output, MapError>)
    ensures
        ({
            let queue = map_resources(
                bsp_data@,
                mapname@,
                server_of(*plan, server),
                texts(plan.search_dirs@),
            );
            let src = sources(mapname, vanilla, server, &plan.search_dirs);
            match r {
                Ok(Output::List(list)) => {
                    &&& textures_addressable(bsp_data@)
                    &&& bsp_complaint(bsp_data@) is None
                    &&& plan.loose || res_only
                    &&& texts(list.needed@) == needed(
                        queue,
                        mapname@,
                        vanilla@.dom(),
                        server_of(*plan, server),
                        texts(plan.search_dirs@),
                    )
                    &&& exists|stamp: Seq<char>| #[trigger]
                        is_time(stamp) && list.text@ == list_text(
                            mapname@,
                            stamp,
                            texts(list.needed@),
                        )
                    &&& final(log)@ == old(log)@
                },
                Ok(Output::Archive(packed)) => {
                    &&& textures_addressable(bsp_data@)
                    &&& bsp_complaint(bsp_data@) is None
                    &&& !plan.loose && !res_only
                    &&& names_fit(listing(queue), src)
                    &&& exists|stamp: Seq<char>|
                        {
                            let whole = #[trigger] crate::pack::plan(
                                bsp_data@,
                                listing(queue),
                                src,
                                stamp,
                            );
                            &&& is_time(stamp) || packs_res(listing(queue), src)
                            &&& readable(whole) ==> zip_contents(packed.bytes@) == whole
                            &&& distinct_names(whole)
                        }
                    &&& packed.totals.match_pairs(listing(queue), src)
                    &&& texts(final(log)@) == texts(old(log)@) + plan_reports(listing(queue), src)
                },
                Err(MapError::Bsp(e)) => {
                    &&& textures_addressable(bsp_data@)
                    &&& bsp_complaint(bsp_data@) == Some(e@)
                    &&& final(log)@ == old(log)@
                },
                Err(MapError::TextureOffset) => {
                    &&& !textures_addressable(bsp_data@)
                    &&& final(log)@ == old(log)@
                },
                Err(MapError::LongName) => {
                    &&& textures_addressable(bsp_data@)
                    &&& bsp_complaint(bsp_data@) is None
                    &&& !plan.loose && !res_only
                    &&& !names_fit(listing(queue), src)
                    &&& final(log)@ == old(log)@
                },
                Err(MapError::Output(e)) => {
                    &&& textures_addressable(bsp_data@)
                    &&& bsp_complaint(bsp_data@) is None
                    &&& plan.loose || res_only ==> e is Time
                    &&& plan.loose || res_only || names_fit(listing(queue), src)
                    &&& e is Time ==> some_time_fails() && (plan.loose || res_only || !packs_res(
                        listing(queue),
                        src,
                    ))
                    &&& e is Time || exists|stamp: Seq<char>|
                        is_stamp(stamp) && !can_be_archived(
                            #[trigger] crate::pack::plan(bsp_data@, listing(queue), src, stamp),
                        )
                    &&& texts(old(log)@).is_prefix_of(texts(final(log)@))
                    &&& texts(final(log)@).is_prefix_of(
                        texts(old(log)@) + plan_reports(listing(queue), src),
                    )
                },
            }
        }),
{
    if !check_textures_addressable(bsp_data) {
        return Err(MapError::TextureOffset);
    }
    let info: BspInfo = match parse_bsp(bsp_data) {
        Ok(info) => info,
        Err(e) => {
            return Err(MapError::Bsp(e));
        },
    };
    let entities: Vec<Entity> = parse_entities(info.entity_text.as_str());
    let source: Option<&Server> = if plan.loose {
        None
    } else {
        Some(server)
    };
    let queue: Queue = resources_of(
        bsp_data,
        &info,
        &entities,
        mapname,
        source,
        &plan.search_dirs,
    );
    if plan.loose || res_only {
        match write_resource_list(mapname, &queue, vanilla, source, &plan.search_dirs) {
            Ok(list) => Ok(Output::List(list)),
            Err(e) => {
                proof {
                    let logged = texts(log@);
                    let src = sources(mapname, vanilla, server, &plan.search_dirs);
                    let all = logged + plan_reports(listing(queue@), src);
                    assert(logged =~= logged.subrange(0, logged.len() as int));
                    assert(logged =~= all.subrange(0, logged.len() as int));
                }
                Err(MapError::Output(PackError::Time(e)))
            },
        }
    } else {
        if !check_names(mapname, &queue, vanilla, server, &plan.search_dirs) {
            return Err(MapError::LongName);
        }
        match write_zip(
            bsp_data,
            mapname,
            &queue,
            vanilla,
            server,
            &plan.search_dirs,
            log,
        ) {
            Ok(packed) => Ok(Output::Archive(packed)),
            Err(e) => Err(MapError::Output(e)),
        }
    }
}

} // verus!
